//! The nodes of the in-memory tree: a leaf holds a value for its cell and
//! every descendant of it; a parent has up to seven children, one per digit.

use crate::cell::{
    cell_of_path, child_raw, lemma_cell_of_path, canonical_cell, lemma_child, lemma_fields, parent_raw, res_of,
    Cell, CellStack,
};
use crate::compaction::{child_values, deref_opt, Compactor};
use crate::digits::Digits;
use crate::disktree::{child_at, disk_leaves, disk_leaves_from, is_leaf, leaf_range, rank, read_node_spec, tag_has};
use crate::varint::{lemma_varint_decode_extend, varint_decode};
use crate::dptr::dp_at;
use vstd::prelude::*;

verus! {

/// A node of the tree.
#[derive(Debug, PartialEq, Eq)]
pub enum Node<V> {
    /// Seven slots, one per digit 0..=6.
    Parent(Vec<Option<Box<Node<V>>>>),
    /// A value covering this node's cell and all its descendants.
    Leaf(V),
}

/// The node in a slot, if any.
pub open spec fn slot_node<V>(slot: Option<Box<Node<V>>>) -> Option<Node<V>> {
    match slot {
        Some(b) => Some(*b),
        None => None,
    }
}

/// The value of the leaf in a slot, if the slot holds a leaf.
pub open spec fn slot_value<V>(slot: Option<Box<Node<V>>>) -> Option<V> {
    match slot {
        Some(b) => match *b {
            Node::Leaf(v) => Some(v),
            Node::Parent(_) => None,
        },
        None => None,
    }
}

impl<V> Node<V> {
    /// Well formed with at most `h` levels of parents below this node:
    /// every parent has seven slots, and a parent at the bottom level is
    /// impossible.
    pub open spec fn wf(self, h: nat) -> bool
        decreases self,
    {
        match self {
            Node::Leaf(_) => true,
            Node::Parent(children) => {
                &&& h > 0
                &&& children.len() == 7
                &&& forall|i: int|
                    0 <= i < 7 ==> match #[trigger] children[i] {
                        Some(b) => (*b).wf((h - 1) as nat),
                        None => true,
                    }
            },
        }
    }

    /// Every parent below this node, this one included, has seven slots.
    pub open spec fn seven(self) -> bool
        decreases self,
    {
        match self {
            Node::Leaf(_) => true,
            Node::Parent(children) => {
                &&& children.len() == 7
                &&& forall|i: int|
                    0 <= i < 7 ==> match #[trigger] children[i] {
                        Some(b) => (*b).seven(),
                        None => true,
                    }
            },
        }
    }

    /// A well-formed node has seven slots at every parent.
    pub proof fn lemma_wf_seven(self, h: nat)
        requires
            self.wf(h),
        ensures
            self.seven(),
        decreases self,
    {
        if let Node::Parent(children) = self {
            assert forall|i: int| 0 <= i < 7 implies match #[trigger] children[i] {
                Some(b) => (*b).seven(),
                None => true,
            } by {
                if let Some(b) = children[i] {
                    (*b).lemma_wf_seven((h - 1) as nat);
                }
            }
        }
    }

    /// Follows `path` down from this node and stops at the first leaf or
    /// where the path ends: the number of digits used and the node there.
    pub open spec fn find(self, path: Seq<u8>) -> Option<(nat, Node<V>)>
        decreases self,
    {
        if path.len() == 0 {
            Some((0nat, self))
        } else {
            match self {
                Node::Leaf(_) => Some((0nat, self)),
                Node::Parent(children) => {
                    if path[0] < children.len() {
                        match children[path[0] as int] {
                            Some(b) => match (*b).find(path.drop_first()) {
                                Some((k, n)) => Some(((k + 1) as nat, n)),
                                None => None,
                            },
                            None => None,
                        }
                    } else {
                        None
                    }
                }
            }
        }
    }

    /// The leaf that covers the end of `path`, if any: the number of digits
    /// down to it and its value.
    pub open spec fn lookup(self, path: Seq<u8>) -> Option<(nat, V)> {
        match self.find(path) {
            Some((k, Node::Leaf(v))) => Some((k, v)),
            _ => None,
        }
    }

    /// A lookup never goes deeper than the path.
    pub proof fn lemma_find_len(self, path: Seq<u8>)
        ensures
            self.find(path) matches Some((k, _)) ==> k <= path.len(),
        decreases self,
    {
        if path.len() > 0 {
            if let Node::Parent(children) = self {
                if path[0] < children.len() {
                    if let Some(b) = children[path[0] as int] {
                        (*b).lemma_find_len(path.drop_first());
                    }
                }
            }
        }
    }

    /// The node a lookup stops at is well formed, and a parent only where
    /// the path ends.
    pub proof fn lemma_find_wf(self, path: Seq<u8>, h: nat)
        requires
            self.wf(h),
        ensures
            self.find(path) matches Some((k, n)) ==> k <= path.len() && k <= h && n.wf((h - k) as nat)
                && (n is Parent ==> k == path.len()),
        decreases self,
    {
        if path.len() > 0 {
            if let Node::Parent(children) = self {
                if path[0] < children.len() {
                    if let Some(b) = children[path[0] as int] {
                        (*b).lemma_find_wf(path.drop_first(), (h - 1) as nat);
                    }
                }
            }
        }
    }

    /// Each leaf listed below this node, which sits at `prefix`, has a path
    /// that extends `prefix` by digits 0..=6, at most `h` of them, and
    /// following those digits from this node stops exactly at that leaf.
    pub proof fn lemma_leaves_found(self, prefix: Seq<u8>, h: nat, j: int)
        requires
            self.wf(h),
            0 <= j < self.leaves(prefix).len(),
        ensures
            ({
                let (p, v) = self.leaves(prefix)[j];
                &&& prefix.len() <= p.len() <= prefix.len() + h
                &&& p.subrange(0, prefix.len() as int) == prefix
                &&& forall|i: int| prefix.len() <= i < p.len() ==> #[trigger] p[i] < 7
                &&& self.find(p.subrange(prefix.len() as int, p.len() as int)) == Some(
                    ((p.len() - prefix.len()) as nat, Node::Leaf(v)),
                )
            }),
        decreases self, 8nat,
    {
        match self {
            Node::Leaf(v) => {
                assert(prefix.subrange(0, prefix.len() as int) =~= prefix);
                assert(prefix.subrange(prefix.len() as int, prefix.len() as int) =~= Seq::<u8>::empty());
            },
            Node::Parent(_) => {
                self.lemma_leaves_from_found(prefix, h, 0, j);
            },
        }
    }

    proof fn lemma_leaves_from_found(self, prefix: Seq<u8>, h: nat, d: nat, j: int)
        requires
            self.wf(h),
            self is Parent,
            d <= 7,
            0 <= j < self.leaves_from(prefix, d).len(),
        ensures
            ({
                let (p, v) = self.leaves_from(prefix, d)[j];
                &&& prefix.len() < p.len() <= prefix.len() + h
                &&& p[prefix.len() as int] >= d
                &&& p.subrange(0, prefix.len() as int) == prefix
                &&& forall|i: int| prefix.len() <= i < p.len() ==> #[trigger] p[i] < 7
                &&& self.find(p.subrange(prefix.len() as int, p.len() as int)) == Some(
                    ((p.len() - prefix.len()) as nat, Node::Leaf(v)),
                )
            }),
        decreases self, (7 - d) as nat,
    {
        if let Node::Parent(children) = self {
            if d < 7 {
                let rest = self.leaves_from(prefix, d + 1);
                match children[d as int] {
                    Some(b) => {
                        let here = (*b).leaves(prefix.push(d as u8));
                        if j < here.len() {
                            (*b).lemma_leaves_found(prefix.push(d as u8), (h - 1) as nat, j);
                            let (p, v) = here[j];
                            assert(self.leaves_from(prefix, d)[j] == here[j]);
                            let q = p.subrange(prefix.len() as int, p.len() as int);
                            assert(p.subrange(0, prefix.len() as int) =~= prefix.push(d as u8).subrange(0, prefix.len() as int));
                            assert(q[0] == p[prefix.len() as int]);
                            assert(p.subrange(0, (prefix.len() + 1) as int) == prefix.push(d as u8));
                            assert(p[prefix.len() as int] == prefix.push(d as u8)[prefix.len() as int]);
                            assert(q.drop_first() =~= p.subrange((prefix.len() + 1) as int, p.len() as int));
                        } else {
                            self.lemma_leaves_from_found(prefix, h, d + 1, j - here.len());
                            assert(self.leaves_from(prefix, d)[j] == rest[j - here.len()]);
                        }
                    },
                    None => {
                        self.lemma_leaves_from_found(prefix, h, d + 1, j);
                    },
                }
            }
        }
    }

    /// No two leaves below this node have the same path.
    pub proof fn lemma_leaves_distinct(self, prefix: Seq<u8>, h: nat, i: int, j: int)
        requires
            self.wf(h),
            0 <= i < j < self.leaves(prefix).len(),
        ensures
            self.leaves(prefix)[i].0 != self.leaves(prefix)[j].0,
        decreases self, 8nat,
    {
        if let Node::Parent(_) = self {
            self.lemma_leaves_from_distinct(prefix, h, 0, i, j);
        }
    }

    proof fn lemma_leaves_from_distinct(self, prefix: Seq<u8>, h: nat, d: nat, i: int, j: int)
        requires
            self.wf(h),
            self is Parent,
            d <= 7,
            0 <= i < j < self.leaves_from(prefix, d).len(),
        ensures
            self.leaves_from(prefix, d)[i].0 != self.leaves_from(prefix, d)[j].0,
        decreases self, (7 - d) as nat,
    {
        if let Node::Parent(children) = self {
            if d < 7 {
                let rest = self.leaves_from(prefix, d + 1);
                match children[d as int] {
                    Some(b) => {
                        let here = (*b).leaves(prefix.push(d as u8));
                        let all = self.leaves_from(prefix, d);
                        assert(all == here + rest);
                        if j < here.len() {
                            (*b).lemma_leaves_distinct(prefix.push(d as u8), (h - 1) as nat, i, j);
                        } else if i >= here.len() {
                            self.lemma_leaves_from_distinct(prefix, h, d + 1, i - here.len(), j - here.len());
                        } else {
                            (*b).lemma_leaves_found(prefix.push(d as u8), (h - 1) as nat, i);
                            self.lemma_leaves_from_found(prefix, h, d + 1, j - here.len());
                            let pi = here[i].0;
                            let pj = rest[j - here.len()].0;
                            assert(pi.subrange(0, (prefix.len() + 1) as int)[prefix.len() as int] == prefix.push(d as u8)[prefix.len() as int]);
                            assert(pi[prefix.len() as int] == d);
                            assert(pj[prefix.len() as int] >= d + 1);
                        }
                    },
                    None => {
                        self.lemma_leaves_from_distinct(prefix, h, d + 1, i, j);
                    },
                }
            }
        }
    }

    /// A leaf found at the end of a path is found, at the same depth, by
    /// any longer path that starts with it.
    pub proof fn lemma_find_extends(self, p: Seq<u8>, q: Seq<u8>)
        requires
            self.find(p) matches Some((k, n)) && k == p.len() && n is Leaf,
        ensures
            self.find(p + q) == self.find(p),
        decreases self,
    {
        if p.len() == 0 {
            assert(p + q =~= q);
        } else if let Node::Parent(children) = self {
            let b = children[p[0] as int]->0;
            assert((p + q).drop_first() =~= p.drop_first() + q);
            (*b).lemma_find_extends(p.drop_first(), q);
        }
    }

    /// `new` is this node with the value of the leaf `k` digits down `path`
    /// replaced by `v`, and nothing else changed.
    pub open spec fn with_leaf_value(self, new: Node<V>, path: Seq<u8>, k: nat, v: V) -> bool
        decreases k,
    {
        if k == 0 {
            self is Leaf && new == Node::Leaf(v)
        } else {
            match (self, new) {
                (Node::Parent(oc), Node::Parent(nc)) => {
                    &&& path.len() > 0
                    &&& path[0] < 7
                    &&& oc.len() == 7
                    &&& nc.len() == 7
                    &&& forall|i: int| 0 <= i < 7 && i != path[0] ==> #[trigger] nc[i] == oc[i]
                    &&& oc[path[0] as int] matches Some(ob)
                    &&& nc[path[0] as int] matches Some(nb)
                    &&& (*ob).with_leaf_value(*nb, path.drop_first(), (k - 1) as nat, v)
                },
                _ => false,
            }
        }
    }

    /// A mutable reference to the value of the leaf covering the end of
    /// the path that `digits` has left, below this node at resolution
    /// `res`, with the cell of that leaf.
    pub fn leaf_mut(&mut self, res: u8, cell: Cell, digits: Digits) -> (r: Option<(Cell, &mut V)>)
        requires
            digits.wf(),
            res + digits@.len() == res_of(cell@),
            old(self).wf((15 - res) as nat),
            old(self).lookup(digits@) is Some,
        ensures
            match old(self).lookup(digits@) {
                None => false,
                Some((k, v)) => r matches Some((c, m)) && c@ == parent_raw(cell@, (res + k) as u64)
                    && *m == v && old(self).with_leaf_value(*final(self), digits@, k, *final(m)),
            },
        decreases digits@.len(),
    {
        proof {
            lemma_fields(cell@);
        }
        let mut digits = digits;
        let ghost path = digits@;
        let next = digits.next();
        match self {
            Node::Leaf(value) => {
                let c = if next.is_none() {
                    proof {
                        use_type_invariant(&cell);
                    }
                    cell
                } else {
                    cell.to_parent(res).unwrap()
                };
                Some((c, value))
            },
            Node::Parent(children) => {
                let d = next.unwrap();
                assert(path.drop_first() == digits@);
                match &mut children[d as usize] {
                    Some(node) => node.leaf_mut(res + 1, cell, digits),
                    None => None,
                }
            },
        }
    }

    /// Replacing a leaf's value keeps the node well formed, and a lookup
    /// along the same path then finds the new value at the same depth.
    pub proof fn lemma_with_leaf_value(self, new: Node<V>, path: Seq<u8>, k: nat, v: V, h: nat)
        requires
            self.wf(h),
            self.with_leaf_value(new, path, k, v),
            self.lookup(path) matches Some((j, _)) && j == k,
        ensures
            new.wf(h),
            new.lookup(path) == Some((k, v)),
        decreases k,
    {
        if k > 0 {
            if let (Node::Parent(oc), Node::Parent(nc)) = (self, new) {
                let ob = oc[path[0] as int]->0;
                let nb = nc[path[0] as int]->0;
                (*ob).lemma_with_leaf_value(*nb, path.drop_first(), (k - 1) as nat, v, (h - 1) as nat);
                assert forall|i: int| 0 <= i < 7 implies match #[trigger] nc[i] {
                    Some(b) => (*b).wf((h - 1) as nat),
                    None => true,
                } by {
                    if i != path[0] {
                        assert(nc[i] == oc[i]);
                    }
                }
            }
        }
    }

    /// For a subtree under a base cell: replacing a leaf's value keeps it
    /// well formed, and a lookup along the same path finds the new value.
    pub broadcast proof fn lemma_with_leaf_value_root(self, new: Node<V>, path: Seq<u8>, k: nat, v: V)
        requires
            self.wf(15),
            #[trigger] self.with_leaf_value(new, path, k, v),
            self.lookup(path) matches Some((j, _)) && j == k,
        ensures
            new.wf(15),
            new.lookup(path) == Some((k, v)),
    {
        self.lemma_with_leaf_value(new, path, k, v, 15);
    }

    /// A mutable reference to the node reached by following the path that
    /// `digits` has left from this node, at resolution `res`: the first
    /// leaf on the way or the node at the path's end, with the ancestor of
    /// `cell` at its resolution. Whatever keeps that node well formed keeps
    /// this one well formed.
    pub fn find_mut(&mut self, res: u8, cell: Cell, digits: Digits) -> (r: Option<(Cell, &mut Node<V>)>)
        requires
            digits.wf(),
            res + digits@.len() == res_of(cell@),
            old(self).wf((15 - res) as nat),
            old(self).find(digits@) is Some,
        ensures
            match old(self).find(digits@) {
                None => false,
                Some((k, n)) => r matches Some((c, m)) && c@ == parent_raw(cell@, (res + k) as u64)
                    && *m == n && k <= 15 - res && (final(m).wf((15 - res - k) as nat) ==> final(self).wf(
                    (15 - res) as nat,
                )),
            },
        decreases digits@.len(),
    {
        proof {
            lemma_fields(cell@);
            self.lemma_find_wf(digits@, (15 - res) as nat);
        }
        let mut digits = digits;
        let ghost path = digits@;
        let next = digits.next();
        if next.is_none() || !self.is_parent() {
            let c = if next.is_none() {
                proof {
                    use_type_invariant(&cell);
                }
                cell
            } else {
                cell.to_parent(res).unwrap()
            };
            return Some((c, self));
        }
        match self {
            Node::Leaf(_) => None,
            Node::Parent(children) => {
                let d = next.unwrap();
                assert(path.drop_first() == digits@);
                match &mut children[d as usize] {
                    Some(node) => node.find_mut(res + 1, cell, digits),
                    None => None,
                }
            },
        }
    }

    /// The digits a lookup follows are digits of children: 0..=6.
    pub proof fn lemma_find_digits(self, path: Seq<u8>, h: nat)
        requires
            self.wf(h),
        ensures
            self.find(path) matches Some((k, _)) ==> forall|i: int| 0 <= i < k ==> #[trigger] path[i] < 7,
        decreases self,
    {
        if path.len() > 0 {
            if let Node::Parent(children) = self {
                if path[0] < children.len() {
                    if let Some(b) = children[path[0] as int] {
                        (*b).lemma_find_digits(path.drop_first(), (h - 1) as nat);
                        (*b).lemma_find_len(path.drop_first());
                        if let Some((kc, _)) = (*b).find(path.drop_first()) {
                            assert forall|i: int| 0 <= i < kc + 1 implies #[trigger] path[i] < 7 by {
                                if i > 0 {
                                    assert(path[i] == path.drop_first()[i - 1]);
                                    assert(path.drop_first()[i - 1] < 7);
                                }
                            }
                        }
                    }
                }
            }
        }
    }

    /// A child is smaller than its parent.
    pub proof fn lemma_child_decreases(self, d: int)
        requires
            self matches Node::Parent(children) && 0 <= d < children.len() && children[d] is Some,
        ensures
            self matches Node::Parent(children) && decreases_to!(self => *children[d]->0),
    {
        if let Node::Parent(children) = self {
            assert(decreases_to!(self => children));
            assert(decreases_to!(children => children[d]));
        }
    }

    /// A new parent with no children.
    pub fn new() -> (r: Self)
        ensures
            r matches Node::Parent(children) && children@ == seq![None::<Box<Node<V>>>; 7],
            forall|h: nat| h > 0 ==> r.wf(h),
    {
        let r = Node::Parent(vec![None, None, None, None, None, None, None]);
        assert(r matches Node::Parent(children) && children@ =~= seq![None::<Box<Node<V>>>; 7]);
        r
    }

    /// The value, for a leaf.
    pub fn value(&self) -> (r: Option<&V>)
        ensures
            self matches Node::Leaf(v) ==> r == Some(v),
            self matches Node::Parent(_) ==> r is None,
    {
        match self {
            Node::Leaf(value) => Some(value),
            Node::Parent(_) => None,
        }
    }

    /// Whether a leaf covers the end of the path that `digits` has left.
    pub fn contains(&self, digits: Digits) -> (r: bool)
        requires
            digits.wf(),
        ensures
            r == (self.lookup(digits@) is Some),
        decreases digits@.len(),
    {
        let mut digits = digits;
        let ghost path = digits@;
        let next = digits.next();
        match self {
            Node::Leaf(_) => true,
            Node::Parent(children) => match next {
                None => false,
                Some(digit) => {
                    if (digit as usize) < children.len() {
                        match &children[digit as usize] {
                            Some(node) => {
                                assert(path.drop_first() == digits@);
                                node.contains(digits)
                            },
                            None => false,
                        }
                    } else {
                        false
                    }
                },
            },
        }
    }

    /// Follows the path that `digits` has left from this node, at
    /// resolution `res`, to the first leaf or the path's end: that node,
    /// with the ancestor of `cell` at its resolution.
    pub fn get(&self, res: u8, cell: Cell, digits: Digits) -> (r: Option<(Cell, &Node<V>)>)
        requires
            digits.wf(),
            res + digits@.len() == res_of(cell@),
        ensures
            match self.find(digits@) {
                Some((k, n)) => r matches Some((c, m)) && c@ == parent_raw(cell@, (res + k) as u64)
                    && *m == n,
                None => r is None,
            },
        decreases digits@.len(),
    {
        let mut digits = digits;
        let ghost path = digits@;
        let next = digits.next();
        match next {
            None => {
                proof {
                    use_type_invariant(&cell);
                }
                Some((cell, self))
            },
            Some(digit) => match self {
                Node::Leaf(_) => Some((cell.to_parent(res).unwrap(), self)),
                Node::Parent(children) => {
                    if (digit as usize) < children.len() {
                        match &children[digit as usize] {
                            Some(node) => {
                                assert(path.drop_first() == digits@);
                                proof {
                                    lemma_fields(cell@);
                                }
                                let r = node.get(res + 1, cell, digits);
                                r
                            },
                            None => None,
                        }
                    } else {
                        None
                    }
                },
            },
        }
    }
}

/// The value of the leaf in a slot, as a reference.
fn slot_ref<V>(slot: &Option<Box<Node<V>>>) -> (r: Option<&V>)
    ensures
        deref_opt(r) == slot_value(*slot),
{
    match slot {
        Some(node) => node.value(),
        None => None,
    }
}

/// The values of the leaves among seven slots.
pub open spec fn slot_values<V>(children: Seq<Option<Box<Node<V>>>>) -> Seq<Option<V>> {
    Seq::new(7, |i: int| slot_value(children[i]))
}

/// No slot holds a parent.
pub open spec fn no_parent_child<V>(children: Seq<Option<Box<Node<V>>>>) -> bool {
    forall|i: int| 0 <= i < children.len() ==> !(slot_node(#[trigger] children[i]) matches Some(
        Node::Parent(_),
    ))
}

impl<V> Node<V> {
    /// Whether this node is a parent.
    pub fn is_parent(&self) -> (r: bool)
        ensures
            r == (self is Parent),
    {
        match self {
            Node::Parent(_) => true,
            Node::Leaf(_) => false,
        }
    }

    /// Offers a parent whose present children are all leaves to the
    /// compactor, and turns it into a leaf when the compactor returns a
    /// value.
    pub fn coalesce<C: Compactor<V>>(&mut self, cell: Cell, compactor: &mut C)
        requires
            *old(self) matches Node::Parent(children) ==> children.len() == 7,
        ensures
            *old(self) is Leaf ==> *final(self) == *old(self) && *final(compactor) == *old(compactor),
            *old(self) matches Node::Parent(children) ==> {
                if no_parent_child(children@) {
                    ||| *final(self) == *old(self) && old(compactor).compacts(
                        cell,
                        slot_values(children@),
                        None,
                    )
                    ||| *final(self) matches Node::Leaf(v) && old(compactor).compacts(
                        cell,
                        slot_values(children@),
                        Some(v),
                    )
                } else {
                    *final(self) == *old(self) && *final(compactor) == *old(compactor)
                }
            },
    {
        let compacted = match &*self {
            Node::Leaf(_) => None,
            Node::Parent(children) => {
                let mut i: usize = 0;
                let mut has_parent = false;
                while i < 7 && !has_parent
                    invariant
                        0 <= i <= 7,
                        children.len() == 7,
                        !has_parent ==> forall|j: int|
                            0 <= j < i ==> !(slot_node(#[trigger] children@[j]) matches Some(
                                Node::Parent(_),
                            )),
                        has_parent ==> !no_parent_child(children@),
                    decreases 7 - i + if has_parent { 0int } else { 1int },
                {
                    if let Some(node) = &children[i] {
                        if node.is_parent() {
                            assert(slot_node(children@[i as int]) matches Some(Node::Parent(_)));
                            has_parent = true;
                        }
                    }
                    if !has_parent {
                        i += 1;
                    }
                }
                if has_parent {
                    None
                } else {
                    let arr: [Option<&V>; 7] = [
                        slot_ref(&children[0]),
                        slot_ref(&children[1]),
                        slot_ref(&children[2]),
                        slot_ref(&children[3]),
                        slot_ref(&children[4]),
                        slot_ref(&children[5]),
                        slot_ref(&children[6]),
                    ];
                    assert(child_values(arr) =~= slot_values(children@));
                    compactor.compact(cell, arr)
                }
            },
        };
        if let Some(value) = compacted {
            *self = Node::Leaf(value);
        }
    }

    /// Inserts `value` at the end of the path that `digits` has left, below
    /// this node at resolution `res`, unless a leaf on the way already
    /// covers it; then offers each parent on the way back up to the
    /// compactor.
    pub fn insert<C: Compactor<V>>(
        &mut self,
        cell: Cell,
        res: u8,
        digits: Digits,
        value: V,
        compactor: &mut C,
    )
        requires
            digits.wf(),
            res + digits@.len() == res_of(cell@),
            digits@.len() > 0 ==> old(self).wf((15 - res) as nat),
        ensures
            final(self).wf((15 - res) as nat),
            digits_in_range(digits@) ==> (final(self).lookup(digits@) matches Some((k, w)) && (k
                == digits@.len() ==> w == value)),
            digits@.len() == 0 ==> *final(self) == Node::Leaf(value) && *final(compactor) == *old(
                compactor,
            ),
            forall|q: Seq<u8>| #[trigger] old(self).lookup(q) is Some ==> final(self).lookup(q) is Some,
            (forall|c: C, pc: Cell, vals: Seq<Option<V>>, r: Option<V>|
                #[trigger] c.compacts(pc, vals, r) ==> r is None) && (old(self).lookup(digits@) matches Some(
                (k, _),
            ) && k < digits@.len()) ==> final(self).lookup(digits@) == old(self).lookup(digits@),
            never_compacts::<V, C>() ==> put_slot(Some(Box::new(*old(self))), *final(self), digits@, value),
            ins_rel::<V, C>(Some(Box::new(*old(self))), *final(self), digits@, value, cell@, res as nat),
            last_sibling(*old(self), digits@) ==> {
                ||| final(self).lookup(digits@.drop_last()) is Some
                ||| forall|pc: Cell|
                    pc@ == parent_raw(cell@, (res_of(cell@) - 1) as u64) ==> old(compactor).compacts(
                        pc,
                        sibling_values(*old(self), digits@, value),
                        None,
                    )
            },
        decreases digits@.len(),
    {
        proof {
            lemma_fields(cell@);
        }
        let mut digits = digits;
        let ghost path = digits@;
        let ghost old_self = *self;
        let ghost comp0 = *compactor;
        let ghost mut old_child: Node<V> = Node::Leaf(value);
        let ghost mut new_child: Node<V> = Node::Leaf(value);
        match digits.next() {
            None => {
                *self = Node::Leaf(value);
            },
            Some(digit) => {
                match self {
                    Node::Leaf(_) => {
                        return ;
                    },
                    Node::Parent(children) => {
                        if digit >= 7 || children.len() != 7 {
                            return ;
                        }
                        let mut slot: Option<Box<Node<V>>> = None;
                        children.set_and_swap(digit as usize, &mut slot);
                        let mut node = match slot {
                            Some(b) => *b,
                            None => Node::new(),
                        };
                        assert(path.drop_first() == digits@);
                        proof {
                            old_child = node;
                        }
                        node.insert(cell, res + 1, digits, value, compactor);
                        proof {
                            new_child = node;
                        }
                        children.set(digit as usize, Some(Box::new(node)));
                    },
                }
            },
        }
        proof {
            assert forall|q: Seq<u8>| #[trigger] old_self.lookup(q) is Some implies self.lookup(q) is Some by {
                if let Node::Parent(oc) = old_self {
                    if path.len() > 0 && q.len() > 0 {
                        if let Node::Parent(nc) = *self {
                            if q[0] == path[0] {
                                assert(old_child.lookup(q.drop_first()) is Some);
                            } else {
                                assert(nc[q[0] as int] == oc[q[0] as int]);
                            }
                        }
                    }
                }
            }
        }
        let pcell = cell.to_parent(res).unwrap();
        let ghost mid = *self;
        let ghost comp1 = *compactor;
        self.coalesce(pcell, compactor);
        proof {
            if path.len() > 0 && old_self is Parent {
                if let Node::Parent(oc) = old_self {
                    if path[0] < 7 && oc.len() == 7 {
                        if let Node::Parent(mc) = mid {
                            assert(ins_rel::<V, C>(Some(Box::new(old_child)), new_child, path.drop_first(), value, cell@, (res + 1) as nat));
                            if let Some(ob) = oc@[path[0] as int] {
                                assert(Some(Box::new(old_child)) == oc@[path[0] as int]);
                            } else {
                                if let Node::Parent(fresh) = old_child {
                                    assert(fresh@ =~= Seq::new(7, |i: int| None::<Box<Node<V>>>));
                                }
                                lemma_ins_rel_fresh::<V, C>(old_child, new_child, path.drop_first(), value, cell@, (res + 1) as nat);
                            }
                            let oc2 = slot_children(Some(Box::new(old_self)));
                            assert(oc2 == oc@);
                            let m2 = oc2.update(path[0] as int, Some(Box::new(new_child)));
                            assert(mc@ =~= m2);
                            let rn: nat = res as nat;
                            assert(rn as u64 == res as u64);
                            assert(pcell@ == parent_raw(cell@, rn as u64));
                            let fin = *self;
                            if no_parent_child(m2) {
                                if let Node::Leaf(w) = fin {
                                    assert(comp1.compacts(pcell, slot_values(m2), Some(w)));
                                } else {
                                    assert(comp1.compacts(pcell, slot_values(m2), None));
                                }
                            } else {
                                assert(fin == mid);
                            }
                            assert(ins_rel::<V, C>(oc2[path[0] as int], new_child, path.drop_first(), value, cell@, rn + 1));
                            assert(ins_rel::<V, C>(Some(Box::new(old_self)), fin, path, value, cell@, rn));
                        }
                    }
                }
            }
            if never_compacts::<V, C>() && path.len() > 0 && old_self is Parent {
                if let Node::Parent(oc) = old_self {
                    if path[0] < 7 && oc.len() == 7 {
                        if let Node::Parent(mc) = mid {
                            if oc@[path[0] as int] is None {
                                assert(oc@[path[0] as int] == Seq::new(7, |i: int| None::<Box<Node<V>>>)[path[0] as int]);
                                if let Node::Parent(fresh) = old_child {
                                    assert(fresh@ =~= Seq::new(7, |i: int| None::<Box<Node<V>>>));
                                }
                            }
                            assert(mc@[path[0] as int] == Some(Box::new(new_child)));
                            assert(put_slot(Some(Box::new(old_child)), new_child, path.drop_first(), value));
                            assert(put_slot(oc@[path[0] as int], new_child, path.drop_first(), value));
                            assert(put_slot(Some(Box::new(old_self)), mid, path, value));
                        }
                    }
                }
            }
            if never_compacts::<V, C>() {
                assert(*self == mid || *self == old_self || path.len() == 0);
            }
            if path.len() > 1 && old_self is Parent {
                assert(path.drop_first().len() > 0);
                if old_child.lookup(path.drop_first()) is Some && new_child.lookup(path.drop_first()) == old_child.lookup(path.drop_first()) {
                    assert(mid.lookup(path) == old_self.lookup(path));
                }
            }
            if last_sibling(old_self, path) {
                let prefix = path.drop_last();
                if let Node::Parent(oc) = old_self {
                    if path.len() == 1 {
                        assert(prefix.len() == 0);
                        assert(comp1 == comp0);
                        if let Node::Parent(mc) = mid {
                            assert(mc@ =~= oc@.update(path[0] as int, Some(Box::new(Node::Leaf(value)))));
                            assert(no_parent_child(mc@));
                            assert(sibling_values(old_self, path, value) == slot_values(mc@));
                        }
                        assert forall|pc: Cell| pc@ == parent_raw(cell@, (res_of(cell@) - 1) as u64) implies pc == pcell by {
                            Cell::lemma_view_injective(pc, pcell);
                        }
                    } else {
                        assert(prefix.drop_first() =~= path.drop_first().drop_last());
                        assert(prefix[0] == path[0]);
                        assert(last_sibling(old_child, path.drop_first()));
                        assert(sibling_values(old_child, path.drop_first(), value) == sibling_values(old_self, path, value));
                        if new_child.lookup(path.drop_first().drop_last()) is Some {
                            assert(mid.lookup(prefix) is Some);
                        }
                    }
                }
            }
        }
    }
}

/// `new` is what putting a leaf holding `value` at the end of `path`
/// below the slot `old` gives when nothing is compacted: an existing leaf
/// on the way stays as it is; a digit of 7 leaves the parent as it is; an
/// absent slot counts as a parent with no children.
pub open spec fn put_slot<V>(old: Option<Box<Node<V>>>, new: Node<V>, path: Seq<u8>, value: V) -> bool
    decreases path.len(),
{
    if path.len() == 0 {
        new == Node::Leaf(value)
    } else if old matches Some(b) && *b is Leaf {
        new == *old->0
    } else {
        let oc = match old {
            Some(b) => match *b {
                Node::Parent(c) => c@,
                Node::Leaf(_) => Seq::empty(),
            },
            None => Seq::new(7, |i: int| None::<Box<Node<V>>>),
        };
        &&& oc.len() == 7
        &&& new matches Node::Parent(nc) && nc@.len() == 7 && if path[0] >= 7 {
            nc@ == oc
        } else {
            &&& forall|i: int| 0 <= i < 7 && i != path[0] ==> #[trigger] nc@[i] == oc[i]
            &&& nc@[path[0] as int] matches Some(nb) && put_slot(
                oc[path[0] as int],
                *nb,
                path.drop_first(),
                value,
            )
        }
    }
}

/// The children of the node in a slot; none for an absent slot.
pub open spec fn slot_children<V>(slot: Option<Box<Node<V>>>) -> Seq<Option<Box<Node<V>>>> {
    match slot {
        Some(b) => match *b {
            Node::Parent(c) => c@,
            Node::Leaf(_) => Seq::empty(),
        },
        None => Seq::new(7, |i: int| None::<Box<Node<V>>>),
    }
}

/// `new` is what inserting `value` at the end of `path` below the slot
/// `old`, at resolution `res` of `cell`'s path, gives: an existing leaf on
/// the way stays as it is; a digit of 7 leaves the parent as it is;
/// otherwise the child is inserted into first, and then this parent, when
/// none of its children is a parent, is offered to the compactor with its
/// children's values and becomes `Leaf(w)` exactly when the compactor
/// answers `Some(w)`. The deepest parent is thus offered first.
pub open spec fn ins_rel<V, C: Compactor<V>>(
    old: Option<Box<Node<V>>>,
    new: Node<V>,
    path: Seq<u8>,
    value: V,
    cell: u64,
    res: nat,
) -> bool
    decreases path.len(),
{
    if path.len() == 0 {
        new == Node::Leaf(value)
    } else if old matches Some(b) && *b is Leaf {
        new == *old->0
    } else {
        let oc = slot_children(old);
        &&& oc.len() == 7
        &&& if path[0] >= 7 {
            new matches Node::Parent(nc) && nc@ == oc
        } else {
            exists|nb: Node<V>|
                ins_rel::<V, C>(oc[path[0] as int], nb, path.drop_first(), value, cell, res + 1) && {
                    let mc = #[trigger] oc.update(path[0] as int, Some(Box::new(nb)));
                    ||| new matches Node::Parent(nc) && nc@ == mc && (no_parent_child(mc) ==> exists|
                        c: C,
                        pc: Cell,
                    | pc@ == parent_raw(cell, res as u64) && #[trigger] c.compacts(
                        pc,
                        slot_values(mc),
                        None,
                    ))
                    ||| new matches Node::Leaf(w) && no_parent_child(mc) && exists|c: C, pc: Cell|
                        pc@ == parent_raw(cell, res as u64) && #[trigger] c.compacts(
                            pc,
                            slot_values(mc),
                            Some(w),
                        )
                }
        }
    }
}

/// Inserting below a fresh parent with no children is inserting below an
/// absent slot.
pub proof fn lemma_ins_rel_fresh<V, C: Compactor<V>>(
    fresh: Node<V>,
    new: Node<V>,
    path: Seq<u8>,
    value: V,
    cell: u64,
    res: nat,
)
    requires
        fresh matches Node::Parent(children) && children@ == Seq::new(7, |i: int| None::<Box<Node<V>>>),
        ins_rel::<V, C>(Some(Box::new(fresh)), new, path, value, cell, res),
    ensures
        ins_rel::<V, C>(None, new, path, value, cell, res),
{
    assert(slot_children(Some(Box::new(fresh))) == slot_children(None::<Box<Node<V>>>));
}

/// What a lookup below a slot finds; nothing below an absent slot.
pub open spec fn slot_lookup<V>(slot: Option<Box<Node<V>>>, q: Seq<u8>) -> Option<(nat, V)> {
    match slot {
        Some(b) => (*b).lookup(q),
        None => None,
    }
}

/// `q` and `path` part ways: at some position both have, their digits
/// differ.
pub open spec fn diverges(q: Seq<u8>, path: Seq<u8>) -> bool {
    exists|i: int| 0 <= i < q.len() && i < path.len() && q[i] != path[i]
}

/// Putting a leaf where no leaf lies on the way makes it the one a lookup
/// along its path finds.
pub proof fn lemma_put_found<V>(old: Option<Box<Node<V>>>, new: Node<V>, path: Seq<u8>, value: V)
    requires
        put_slot(old, new, path, value),
        digits_in_range(path),
        !(slot_lookup(old, path) matches Some((k, _)) && k < path.len()),
    ensures
        new.lookup(path) == Some((path.len(), value)),
    decreases path.len(),
{
    if path.len() > 0 {
        if let Node::Parent(nc) = new {
            let d = path[0] as int;
            let nb = nc@[d]->0;
            let oc = match old {
                Some(b) => match *b {
                    Node::Parent(c) => c@,
                    Node::Leaf(_) => Seq::empty(),
                },
                None => Seq::new(7, |i: int| None::<Box<Node<V>>>),
            };
            assert(digits_in_range(path.drop_first())) by {
                assert forall|i: int| 0 <= i < path.drop_first().len() implies #[trigger] path.drop_first()[i] < 7 by {
                    assert(path.drop_first()[i] == path[i + 1]);
                }
            }
            if let Some(ob) = oc[d] {
                if let Some((k, _)) = (*ob).lookup(path.drop_first()) {
                    (*ob).lemma_find_len(path.drop_first());
                }
            }
            lemma_put_found(oc[d], *nb, path.drop_first(), value);
        }
    }
}

/// Putting a leaf changes nothing a lookup along a path that parts ways
/// with it finds.
pub proof fn lemma_put_frame<V>(old: Option<Box<Node<V>>>, new: Node<V>, path: Seq<u8>, value: V, q: Seq<u8>)
    requires
        put_slot(old, new, path, value),
        diverges(q, path),
        old matches Some(b) ==> (*b is Parent ==> (*b).seven()),
    ensures
        new.lookup(q) == slot_lookup(old, q),
    decreases path.len(),
{
    if old matches Some(b) && *b is Leaf {
    } else if let Node::Parent(nc) = new {
        let oc = match old {
            Some(b) => match *b {
                Node::Parent(c) => c@,
                Node::Leaf(_) => Seq::empty(),
            },
            None => Seq::new(7, |i: int| None::<Box<Node<V>>>),
        };
        let i = choose|i: int| 0 <= i < q.len() && i < path.len() && q[i] != path[i];
        if q[0] == path[0] {
            assert(diverges(q.drop_first(), path.drop_first())) by {
                assert(q.drop_first()[i - 1] != path.drop_first()[i - 1]);
            }
            if path[0] < 7 {
                let nb = nc@[path[0] as int]->0;
                if let Some(ob) = oc[path[0] as int] {
                    if *ob is Parent {
                        if let Some(b) = old {
                            if let Node::Parent(c) = *b {
                                assert(c@[path[0] as int] == oc[path[0] as int]);
                            }
                        }
                    }
                }
                lemma_put_frame(oc[path[0] as int], *nb, path.drop_first(), value, q.drop_first());
            }
        } else if q[0] < 7 {
            assert(nc@[q[0] as int] == oc[q[0] as int]);
        }
    }
}

/// The compactor never compacts, whatever its state.
pub open spec fn never_compacts<V, C: Compactor<V>>() -> bool {
    forall|c: C, pc: Cell, vals: Seq<Option<V>>, r: Option<V>| #[trigger] c.compacts(pc, vals, r) ==> r is None
}

/// Some leaf at or below `node` holds `v`.
pub open spec fn has_leaf_value<V>(node: Node<V>, v: V) -> bool
    decreases node, 1nat,
{
    match node {
        Node::Leaf(w) => w == v,
        Node::Parent(children) => children.len() == 7 && (
            slot_has_value(children[0], v) ||
            slot_has_value(children[1], v) ||
            slot_has_value(children[2], v) ||
            slot_has_value(children[3], v) ||
            slot_has_value(children[4], v) ||
            slot_has_value(children[5], v) ||
            slot_has_value(children[6], v)),
    }
}

/// Some leaf at or below the node in `slot` holds `v`.
pub open spec fn slot_has_value<V>(slot: Option<Box<Node<V>>>, v: V) -> bool
    decreases slot, 0nat,
{
    match slot {
        Some(b) => has_leaf_value(*b, v),
        None => false,
    }
}

/// A value held below a child is held below its parent.
pub proof fn lemma_has_leaf_value_child<V>(node: Node<V>, d: int, v: V)
    requires
        node matches Node::Parent(children) && children.len() == 7 && 0 <= d < 7 && slot_has_value(
            children[d],
            v,
        ),
    ensures
        has_leaf_value(node, v),
{
}

/// Every digit of `path` is 0..=6.
pub open spec fn digits_in_range(path: Seq<u8>) -> bool {
    forall|i: int| 0 <= i < path.len() ==> #[trigger] path[i] < 7
}

/// Following `path` from `node` reaches, one digit before its end, a
/// parent whose other six children are all leaves.
pub open spec fn last_sibling<V>(node: Node<V>, path: Seq<u8>) -> bool {
    &&& path.len() >= 1
    &&& node.find(path.drop_last()) matches Some((k, Node::Parent(children))) && k == path.len() - 1
        && children.len() == 7 && path.last() < 7 && forall|i: int|
        0 <= i < 7 && i != path.last() ==> slot_node(#[trigger] children[i]) matches Some(Node::Leaf(_))
}

/// The values of that parent's children once a leaf holding `value` is
/// put at the path's last digit.
pub open spec fn sibling_values<V>(node: Node<V>, path: Seq<u8>, value: V) -> Seq<Option<V>> {
    match node.find(path.drop_last()) {
        Some((_, Node::Parent(children))) => slot_values(
            children@.update(path.last() as int, Some(Box::new(Node::Leaf(value)))),
        ),
        _ => Seq::empty(),
    }
}

/// Seven to the power `h`.
pub open spec fn pow7(h: nat) -> nat
    decreases h,
{
    if h == 0 {
        1
    } else {
        7 * pow7((h - 1) as nat)
    }
}

impl<V> Node<V> {
    /// The leaves below this node, which sits at `path`, in depth-first
    /// order with digits ascending: each leaf's path and value.
    pub open spec fn leaves(self, path: Seq<u8>) -> Seq<(Seq<u8>, V)>
        decreases self, 8nat,
    {
        match self {
            Node::Leaf(v) => seq![(path, v)],
            Node::Parent(_) => self.leaves_from(path, 0),
        }
    }

    /// The leaves below the children `i..7` of this parent, which sits at
    /// `path`.
    pub open spec fn leaves_from(self, path: Seq<u8>, i: nat) -> Seq<(Seq<u8>, V)>
        decreases self, (7 - i) as nat,
    {
        match self {
            Node::Leaf(_) => Seq::empty(),
            Node::Parent(children) => {
                if i >= 7 || i >= children.len() {
                    Seq::empty()
                } else {
                    let rest = self.leaves_from(path, i + 1);
                    match children[i as int] {
                        Some(b) => (*b).leaves(path.push(i as u8)) + rest,
                        None => rest,
                    }
                }
            },
        }
    }

    /// The number of leaves does not depend on where the node sits, and is
    /// at most seven to the power of its height.
    pub proof fn lemma_leaves_len(self, p: Seq<u8>, q: Seq<u8>, h: nat)
        requires
            self.wf(h),
        ensures
            self.leaves(p).len() == self.leaves(q).len(),
            self.leaves(p).len() <= pow7(h),
        decreases self, 8nat,
    {
        if let Node::Parent(_) = self {
            self.lemma_leaves_from_len(p, q, h, 0);
        }
        lemma_pow7_pos(h);
    }

    proof fn lemma_leaves_from_len(self, p: Seq<u8>, q: Seq<u8>, h: nat, i: nat)
        requires
            self.wf(h),
            self is Parent,
            i <= 7,
        ensures
            self.leaves_from(p, i).len() == self.leaves_from(q, i).len(),
            self.leaves_from(p, i).len() <= (7 - i) * pow7((h - 1) as nat),
        decreases self, (7 - i) as nat,
    {
        if let Node::Parent(children) = self {
            if i < 7 {
                self.lemma_leaves_from_len(p, q, h, i + 1);
                if let Some(b) = children[i as int] {
                    (*b).lemma_leaves_len(p.push(i as u8), q.push(i as u8), (h - 1) as nat);
                }
                assert((7 - i) * pow7((h - 1) as nat) == (7 - (i + 1)) * pow7((h - 1) as nat) + pow7(
                    (h - 1) as nat,
                )) by (nonlinear_arith);
            }
        }
    }

    /// The number of leaves below this node.
    pub fn len(&self, h: u8) -> (r: u64)
        requires
            self.wf(h as nat),
            h <= 15,
        ensures
            r == self.leaves(Seq::empty()).len(),
        decreases self,
    {
        match self {
            Node::Leaf(_) => 1,
            Node::Parent(children) => {
                let ghost empty = Seq::<u8>::empty();
                let mut total: u64 = 0;
                let mut i: usize = 7;
                proof {
                    lemma_pow7_bound(h as nat);
                    self.lemma_leaves_from_len(empty, empty, h as nat, 7);
                }
                while i > 0
                    invariant
                        0 <= i <= 7,
                        children.len() == 7,
                        self.wf(h as nat),
                        *self == Node::Parent(*children),
                        1 <= h <= 15,
                        empty == Seq::<u8>::empty(),
                        total == self.leaves_from(empty, i as nat).len(),
                        total <= (7 - i) * pow7((h - 1) as nat),
                        pow7((h - 1) as nat) <= pow7(14),
                        pow7(14) < 0x1_0000_0000_0000,
                    decreases i,
                {
                    i -= 1;
                    proof {
                        self.lemma_leaves_from_len(empty, empty, h as nat, i as nat);
                    }
                    assert((7 - i) * pow7((h - 1) as nat) == (7 - (i + 1)) * pow7((h - 1) as nat)
                        + pow7((h - 1) as nat)) by (nonlinear_arith);
                    assert((7 - i) * pow7((h - 1) as nat) <= 7 * pow7(14)) by (nonlinear_arith)
                        requires
                            i <= 7,
                            pow7((h - 1) as nat) <= pow7(14),
                    ;
                    if let Some(node) = &children[i] {
                        let n = node.len(h - 1);
                        proof {
                            (**node).lemma_leaves_len(empty, empty.push(i as u8), (h - 1) as nat);
                        }
                        assert(self.leaves_from(empty, i as nat) == (**node).leaves(empty.push(i as u8))
                            + self.leaves_from(empty, (i + 1) as nat));
                        total = total + n;
                    } else {
                        assert(self.leaves_from(empty, i as nat) == self.leaves_from(
                            empty,
                            (i + 1) as nat,
                        ));
                    }
                }
                total
            },
        }
    }
}

proof fn lemma_pow7_pos(h: nat)
    ensures
        pow7(h) >= 1,
    decreases h,
{
    if h > 0 {
        lemma_pow7_pos((h - 1) as nat);
    }
}

/// Seven to the fifteenth.
pub proof fn lemma_pow7_value()
    ensures
        pow7(15) == 4747561509943,
{
    reveal_with_fuel(pow7, 16);
}

/// Seven to a power up to 15 stays far below 2^48, and grows with the
/// power.
proof fn lemma_pow7_bound(h: nat)
    requires
        h <= 15,
    ensures
        pow7(h) <= pow7(15),
        h >= 1 ==> pow7((h - 1) as nat) <= pow7(14),
        pow7(14) < 0x1_0000_0000_0000,
        pow7(15) == 4747561509943,
{
    reveal_with_fuel(pow7, 16);
    lemma_pow7_mono(h, 15);
    if h >= 1 {
        lemma_pow7_mono((h - 1) as nat, 14);
    }
}

proof fn lemma_pow7_mono(a: nat, b: nat)
    requires
        a <= b,
    ensures
        pow7(a) <= pow7(b),
    decreases b,
{
    if a < b {
        lemma_pow7_mono(a, (b - 1) as nat);
        lemma_pow7_pos((b - 1) as nat);
    }
}

/// A path from a base cell: the base cell first, then digits 0..=6, at
/// most fifteen of them.
pub open spec fn valid_path(path: Seq<u8>) -> bool {
    &&& 1 <= path.len() <= 16
    &&& path[0] < 122
    &&& forall|i: int| 1 <= i < path.len() ==> #[trigger] path[i] < 7
}

/// Leaves with their paths replaced by the cells at their ends.
pub open spec fn leaf_cells<V>(s: Seq<(Seq<u8>, V)>) -> Seq<(u64, V)> {
    s.map_values(|e: (Seq<u8>, V)| (cell_of_path(e.0), e.1))
}

/// An entry handed out by iteration, as a cell index and a value.
pub open spec fn entry_view<V>(e: (Cell, &V)) -> (u64, V) {
    (e.0@, *e.1)
}

/// Entries handed out by iteration, as cell indices and values.
pub open spec fn entries_view<V>(s: Seq<(Cell, &V)>) -> Seq<(u64, V)> {
    s.map_values(|e: (Cell, &V)| entry_view(e))
}

impl<V> Node<V> {
    /// The leaves below the children `0..i` of this parent, which sits at
    /// `path`.
    pub open spec fn leaves_before(self, path: Seq<u8>, i: nat) -> Seq<(Seq<u8>, V)>
        decreases i,
    {
        if i == 0 {
            Seq::empty()
        } else {
            let prev = self.leaves_before(path, (i - 1) as nat);
            match self {
                Node::Parent(children) => match children[i - 1] {
                    Some(b) => prev + (*b).leaves(path.push((i - 1) as u8)),
                    None => prev,
                },
                Node::Leaf(_) => prev,
            }
        }
    }

    proof fn lemma_leaves_split(self, path: Seq<u8>, i: nat)
        requires
            self matches Node::Parent(children) && children.len() == 7,
            i <= 7,
        ensures
            self.leaves_before(path, i) + self.leaves_from(path, i) == self.leaves(path),
        decreases i,
    {
        if i > 0 {
            self.lemma_leaves_split(path, (i - 1) as nat);
            let prev = self.leaves_before(path, (i - 1) as nat);
            assert(self.leaves_from(path, (i - 1) as nat) == match self {
                Node::Parent(children) => match children[i - 1] {
                    Some(b) => (*b).leaves(path.push((i - 1) as u8)) + self.leaves_from(path, i),
                    None => self.leaves_from(path, i),
                },
                Node::Leaf(_) => Seq::empty(),
            });
            if let Node::Parent(children) = self {
                if let Some(b) = children[i - 1] {
                    assert(prev + ((*b).leaves(path.push((i - 1) as u8)) + self.leaves_from(path, i))
                        =~= (prev + (*b).leaves(path.push((i - 1) as u8))) + self.leaves_from(
                        path,
                        i,
                    ));
                }
            }
        } else {
            assert(Seq::<(Seq<u8>, V)>::empty() + self.leaves_from(path, 0) =~= self.leaves(path));
        }
    }

    /// Appends the leaves below this node, which sits at `path` with
    /// `stack` holding its cell, to `out` in depth-first order with digits
    /// ascending.
    pub fn collect<'a>(
        &'a self,
        stack: &mut CellStack,
        out: &mut Vec<(Cell, &'a V)>,
        Ghost(path): Ghost<Seq<u8>>,
    )
        requires
            valid_path(path),
            self.wf((16 - path.len()) as nat),
            old(stack).wf(),
            old(stack)@ == Some(cell_of_path(path)),
        ensures
            final(stack).wf(),
            final(stack)@ == old(stack)@,
            entries_view(final(out)@) == entries_view(old(out)@) + leaf_cells(self.leaves(path)),
        decreases self,
    {
        proof {
            lemma_cell_of_path(path);
        }
        match self {
            Node::Leaf(value) => {
                let cell = *stack.cell().unwrap();
                let ghost before = out@;
                out.push((cell, value));
                assert(entries_view(out@) =~= entries_view(before) + leaf_cells(self.leaves(path)));
            },
            Node::Parent(children) => {
                let ghost start = out@;
                let mut d: usize = 0;
                while d < 7
                    invariant
                        0 <= d <= 7,
                        children.len() == 7,
                        *self == Node::Parent(*children),
                        valid_path(path),
                        self.wf((16 - path.len()) as nat),
                        stack.wf(),
                        stack@ == Some(cell_of_path(path)),
                        canonical_cell(cell_of_path(path)),
                        res_of(cell_of_path(path)) == path.len() - 1,
                        entries_view(out@) == entries_view(start) + leaf_cells(
                            self.leaves_before(path, d as nat),
                        ),
                    decreases 7 - d,
                {
                    let ghost before = out@;
                    if let Some(node) = &children[d] {
                        let ghost child_path = path.push(d as u8);
                        assert(child_path.drop_last() == path);
                        assert forall|i: int| 1 <= i < child_path.len() implies #[trigger] child_path[i] < 7 by {
                            if i < path.len() {
                                assert(child_path[i] == path[i]);
                            }
                        }
                        proof {
                            lemma_child(cell_of_path(path), d as u64);
                        }
                        stack.push(d as u8);
                        node.collect(stack, out, Ghost(child_path));
                        stack.pop();
                        assert(leaf_cells(self.leaves_before(path, (d + 1) as nat)) =~= leaf_cells(
                            self.leaves_before(path, d as nat),
                        ) + leaf_cells((**node).leaves(child_path)));
                        assert(entries_view(out@) =~= entries_view(start) + leaf_cells(
                            self.leaves_before(path, (d + 1) as nat),
                        ));
                    } else {
                        assert(self.leaves_before(path, (d + 1) as nat) == self.leaves_before(
                            path,
                            d as nat,
                        ));
                    }
                    d += 1;
                }
                proof {
                    self.lemma_leaves_split(path, 7);
                }
                assert(self.leaves_from(path, 7) =~= Seq::<(Seq<u8>, V)>::empty());
                assert(self.leaves_before(path, 7) =~= self.leaves(path));
            },
        }
    }
}

/// `bytes` is what the encoder `f` may return for `v`.
pub open spec fn encodes<V, E, F: Fn(&V) -> Result<Vec<u8>, E>>(f: F, v: V, bytes: Seq<u8>) -> bool {
    exists|out: Vec<u8>| #[trigger] f.ensures((&v,), Ok::<Vec<u8>, E>(out)) && out@ == bytes
}

/// A present child's pointer lies inside its parent's record.
pub proof fn lemma_child_ptr_inside(tag: u8, d: int)
    requires
        0 <= d < 7,
        tag_has(tag, d),
    ensures
        rank(tag, d) + 1 <= rank(tag, 7),
    decreases 7 - d,
{
    if d < 6 {
        lemma_rank_mono_7(tag, d + 1);
    }
}

proof fn lemma_rank_mono_7(tag: u8, d: int)
    requires
        0 <= d <= 7,
    ensures
        rank(tag, d) <= rank(tag, 7),
    decreases 7 - d,
{
    if d < 7 {
        lemma_rank_mono_7(tag, d + 1);
    }
}

impl<V> Node<V> {
    /// An image depends only on its own bytes: another buffer that agrees
    /// on them, and is at least as long, holds it too, up to any later end.
    pub proof fn lemma_image_frame<E, F: Fn(&V) -> Result<Vec<u8>, E>>(
        self,
        buf: Seq<u8>,
        buf2: Seq<u8>,
        pos: int,
        end: int,
        end2: int,
        f: F,
    )
        requires
            self.image_in(buf, pos, end, f),
            end <= end2 <= buf2.len(),
            forall|i: int| pos <= i < end ==> #[trigger] buf2[i] == buf[i],
        ensures
            self.image_in(buf2, pos, end2, f),
        decreases self,
    {
        assert(buf2[pos] == buf[pos]);
        match self {
            Node::Leaf(v) => {
                assert(buf2.subrange(pos, end2) =~= buf.subrange(pos, end) + buf2.subrange(end, end2));
                lemma_varint_decode_extend(buf.subrange(pos, end), buf2.subrange(end, end2));
                if let Ok((bl, vl)) = varint_decode(buf.subrange(pos, end)) {
                    assert(buf2.subrange(pos + vl, pos + vl + bl) =~= buf.subrange(pos + vl, pos + vl + bl));
                }
            },
            Node::Parent(children) => {
                let tag = buf[pos];
                assert forall|d: int| 0 <= d < 7 implies (tag_has(buf2[pos], d) <==> (#[trigger] children[d]) is Some)
                    && match children[d] {
                    Some(b) => child_at(buf2, pos, d) matches Some(p) && pos < p && (*b).image_in(
                        buf2,
                        p as int,
                        end2,
                        f,
                    ),
                    None => true,
                } by {
                    if let Some(b) = children[d] {
                        lemma_child_ptr_inside(tag, d);
                        let at = pos + 1 + 5 * rank(tag, d);
                        assert(buf2[at] == buf[at]);
                        assert(buf2[at + 1] == buf[at + 1]);
                        assert(buf2[at + 2] == buf[at + 2]);
                        assert(buf2[at + 3] == buf[at + 3]);
                        assert(buf2[at + 4] == buf[at + 4]);
                        assert(child_at(buf2, pos, d) == child_at(buf, pos, d));
                        let p = child_at(buf, pos, d)->0;
                        (*b).lemma_image_frame(buf, buf2, p as int, end, end2, f);
                    }
                }
            },
        }
    }

    /// The bytes `buf[pos..end]` hold the record of this node at `pos`,
    /// followed by the records of everything below it: a leaf's varint
    /// length and the bytes `f` encodes its value as, or a parent's tag and
    /// pointers to its children's records.
    pub open spec fn image_in<E, F: Fn(&V) -> Result<Vec<u8>, E>>(
        self,
        buf: Seq<u8>,
        pos: int,
        end: int,
        f: F,
    ) -> bool
        decreases self,
    {
        &&& 0 <= pos < end <= buf.len()
        &&& match self {
            Node::Leaf(v) => {
                &&& is_leaf(buf, pos)
                &&& varint_decode(buf.subrange(pos, end)) matches Ok((bl, vl)) && pos + vl + bl <= end
                    && encodes(f, v, buf.subrange(pos + vl, pos + vl + bl))
            },
            Node::Parent(children) => {
                &&& !is_leaf(buf, pos)
                &&& pos + 1 + 5 * rank(buf[pos], 7) <= end
                &&& children.len() == 7
                &&& forall|d: int|
                    0 <= d < 7 ==> (tag_has(buf[pos], d) <==> (#[trigger] children[d]) is Some)
                        && match children[d] {
                        Some(b) => child_at(buf, pos, d) matches Some(p) && pos < p && (*b).image_in(
                            buf,
                            p as int,
                            end,
                            f,
                        ),
                        None => true,
                    }
            },
        }
    }
}

/// Leaves read from an image, `s`, against leaves of a tree, `l`: the same
/// paths in the same order, and each value's bytes what `f` encodes the
/// tree's value as.
pub open spec fn leaves_match<V, E, F: Fn(&V) -> Result<Vec<u8>, E>>(
    buf: Seq<u8>,
    s: Seq<(Seq<u8>, (int, int))>,
    l: Seq<(Seq<u8>, V)>,
    f: F,
) -> bool {
    &&& s.len() == l.len()
    &&& forall|j: int|
        0 <= j < s.len() ==> (#[trigger] s[j]).0 == l[j].0 && encodes(
            f,
            l[j].1,
            buf.subrange(s[j].1.0, s[j].1.1),
        )
}

/// Matching leaves can be joined.
pub proof fn lemma_leaves_match_concat<V, E, F: Fn(&V) -> Result<Vec<u8>, E>>(
    buf: Seq<u8>,
    s1: Seq<(Seq<u8>, (int, int))>,
    l1: Seq<(Seq<u8>, V)>,
    s2: Seq<(Seq<u8>, (int, int))>,
    l2: Seq<(Seq<u8>, V)>,
    f: F,
)
    requires
        leaves_match(buf, s1, l1, f),
        leaves_match(buf, s2, l2, f),
    ensures
        leaves_match(buf, s1 + s2, l1 + l2, f),
{
    assert forall|j: int| 0 <= j < (s1 + s2).len() implies (#[trigger] (s1 + s2)[j]).0 == (l1 + l2)[j].0
        && encodes(f, (l1 + l2)[j].1, buf.subrange((s1 + s2)[j].1.0, (s1 + s2)[j].1.1)) by {
        if j >= s1.len() {
            assert((s1 + s2)[j] == s2[j - s1.len()]);
            assert((l1 + l2)[j] == l2[j - l1.len()]);
        }
    }
}

impl<V> Node<V> {
    /// Reading the image of a well-formed node lists its leaves, with the
    /// encodings of their values, in the tree's own order.
    pub proof fn lemma_image_leaves<E, F: Fn(&V) -> Result<Vec<u8>, E>>(
        self,
        buf: Seq<u8>,
        pos: int,
        end: int,
        path: Seq<u8>,
        h: nat,
        f: F,
    )
        requires
            self.image_in(buf, pos, end, f),
            self.wf(h),
            path.len() + h <= 16,
        ensures
            disk_leaves(buf, pos, path) matches Ok(s) && leaves_match(buf, s, self.leaves(path), f),
        decreases self, 8nat,
    {
        assert(buf.subrange(pos, buf.len() as int) =~= buf.subrange(pos, end) + buf.subrange(end, buf.len() as int));
        match self {
            Node::Leaf(v) => {
                lemma_varint_decode_extend(buf.subrange(pos, end), buf.subrange(end, buf.len() as int));
                assert(read_node_spec(buf, pos) is Ok);
                let s = seq![(path, leaf_range(buf, pos))];
                assert(disk_leaves(buf, pos, path) == Ok::<Seq<(Seq<u8>, (int, int))>, crate::error::Error>(s));
                assert(leaves_match(buf, s, self.leaves(path), f));
            },
            Node::Parent(_) => {
                assert(read_node_spec(buf, pos) is Ok);
                self.lemma_image_leaves_from(buf, pos, end, path, h, f, 0);
            },
        }
    }

    proof fn lemma_image_leaves_from<E, F: Fn(&V) -> Result<Vec<u8>, E>>(
        self,
        buf: Seq<u8>,
        pos: int,
        end: int,
        path: Seq<u8>,
        h: nat,
        f: F,
        d: nat,
    )
        requires
            self is Parent,
            self.image_in(buf, pos, end, f),
            self.wf(h),
            path.len() + h <= 16,
            d <= 7,
        ensures
            disk_leaves_from(buf, pos, path, d) matches Ok(s) && leaves_match(
                buf,
                s,
                self.leaves_from(path, d),
                f,
            ),
        decreases self, (7 - d) as nat,
    {
        if let Node::Parent(children) = self {
            if d < 7 {
                self.lemma_image_leaves_from(buf, pos, end, path, h, f, d + 1);
                let t = disk_leaves_from(buf, pos, path, d + 1)->Ok_0;
                let rest = self.leaves_from(path, d + 1);
                match children[d as int] {
                    Some(b) => {
                        let p = child_at(buf, pos, d as int)->0;
                        (*b).lemma_image_leaves(buf, p as int, end, path.push(d as u8), (h - 1) as nat, f);
                        let s = disk_leaves(buf, p as int, path.push(d as u8))->Ok_0;
                        lemma_leaves_match_concat(buf, s, (*b).leaves(path.push(d as u8)), t, rest, f);
                    },
                    None => {},
                }
            } else {
                assert(leaves_match(buf, Seq::empty(), self.leaves_from(path, d), f));
            }
        }
    }
}

/// Mutable entries handed out by iteration, as cell indices and the values
/// they point to now.
pub open spec fn entries_mut_view<V>(s: Seq<(Cell, &mut V)>) -> Seq<(u64, V)> {
    s.map_values(|e: (Cell, &mut V)| (e.0@, *e.1))
}

/// The leaves below a run of slots, the first of them for digit `d`, of
/// a parent at `path`.
pub open spec fn slots_leaves<V>(slots: Seq<Option<Box<Node<V>>>>, path: Seq<u8>, d: nat) -> Seq<
    (Seq<u8>, V),
>
    decreases slots.len(),
{
    if slots.len() == 0 {
        Seq::empty()
    } else {
        let rest = slots_leaves(slots.drop_first(), path, d + 1);
        match slots[0] {
            Some(b) => (*b).leaves(path.push(d as u8)) + rest,
            None => rest,
        }
    }
}

impl<V> Node<V> {
    /// The leaves below children `d..7` are those below the run of slots
    /// from `d`.
    proof fn lemma_slots_leaves(self, path: Seq<u8>, d: nat)
        requires
            self matches Node::Parent(children) && children.len() == 7,
            d <= 7,
        ensures
            self matches Node::Parent(children) && self.leaves_from(path, d) == slots_leaves(
                children@.subrange(d as int, 7),
                path,
                d,
            ),
        decreases 7 - d,
    {
        if let Node::Parent(children) = self {
            if d < 7 {
                self.lemma_slots_leaves(path, d + 1);
                assert(children@.subrange(d as int, 7).drop_first() =~= children@.subrange((d + 1) as int, 7));
            } else {
                assert(children@.subrange(d as int, 7).len() == 0);
            }
        }
    }

    /// Appends a mutable reference to the value of each leaf below this
    /// node, which sits at `path` with `stack` holding its cell, to `out`.
    pub fn collect_mut<'a>(
        &'a mut self,
        stack: &mut CellStack,
        out: &mut Vec<(Cell, &'a mut V)>,
        Ghost(path): Ghost<Seq<u8>>,
    )
        requires
            valid_path(path),
            old(self).wf((16 - path.len()) as nat),
            old(stack).wf(),
            old(stack)@ == Some(cell_of_path(path)),
        ensures
            final(stack).wf(),
            final(stack)@ == old(stack)@,
            final(out)@.len() == old(out)@.len() + old(self).leaves(path).len(),
            final(out)@.subrange(0, old(out)@.len() as int) == old(out)@,
            entries_mut_view(final(out)@.subrange(old(out)@.len() as int, final(out)@.len() as int))
                == leaf_cells(old(self).leaves(path)),
            final(self).wf((16 - path.len()) as nat),
        decreases (16 - path.len()) as nat, 8nat,
    {
        proof {
            lemma_cell_of_path(path);
        }
        let ghost whole = *self;
        let ghost before = out@;
        match self {
            Node::Leaf(value) => {
                let cell = *stack.cell().unwrap();
                out.push((cell, value));
                assert(out@.subrange(0, before.len() as int) =~= before);
                assert(entries_mut_view(out@.subrange(before.len() as int, out@.len() as int))
                    =~= leaf_cells(whole.leaves(path)));
            },
            Node::Parent(children) => {
                proof {
                    whole.lemma_slots_leaves(path, 0);
                    assert(children@.subrange(0, 7) =~= children@);
                }
                let slots = children.as_mut_slice();
                collect_slots_mut(slots, 0, stack, out, Ghost(path), Ghost((16 - path.len()) as nat));
            },
        }
    }
}

/// Appends mutable references to the leaf values below `slots`, the
/// children `d..7` of a parent at `path`.
fn collect_slots_mut<'a, V>(
    slots: &'a mut [Option<Box<Node<V>>>],
    d: usize,
    stack: &mut CellStack,
    out: &mut Vec<(Cell, &'a mut V)>,
    Ghost(path): Ghost<Seq<u8>>,
    Ghost(h): Ghost<nat>,
)
    requires
        valid_path(path),
        h > 0,
        path.len() + h == 16,
        d + old(slots)@.len() == 7,
        forall|i: int|
            0 <= i < old(slots)@.len() ==> match #[trigger] old(slots)@[i] {
                Some(b) => (*b).wf((h - 1) as nat),
                None => true,
            },
        old(stack).wf(),
        old(stack)@ == Some(cell_of_path(path)),
    ensures
        final(stack).wf(),
        final(stack)@ == old(stack)@,
        final(out)@.len() == old(out)@.len() + slots_leaves(old(slots)@, path, d as nat).len(),
        final(out)@.subrange(0, old(out)@.len() as int) == old(out)@,
        entries_mut_view(final(out)@.subrange(old(out)@.len() as int, final(out)@.len() as int))
            == leaf_cells(slots_leaves(old(slots)@, path, d as nat)),
        final(slots)@.len() == old(slots)@.len(),
        forall|i: int|
            0 <= i < final(slots)@.len() ==> match #[trigger] final(slots)@[i] {
                Some(b) => (*b).wf((h - 1) as nat) && old(slots)@[i] is Some,
                None => old(slots)@[i] is None,
            },
    decreases (16 - path.len()) as nat, old(slots)@.len(),
{
    let ghost before = out@;
    let ghost all = slots@;
    proof {
        lemma_cell_of_path(path);
    }
    if slots.len() == 0 {
        assert(out@.subrange(0, before.len() as int) =~= before);
        assert(entries_mut_view(out@.subrange(before.len() as int, out@.len() as int)) =~= leaf_cells(
            slots_leaves(all, path, d as nat),
        ));
        return ;
    }
    let (head, tail) = slots.split_at_mut(1);
    let ghost child_path = path.push(d as u8);
    assert(child_path.drop_last() == path);
    assert forall|i: int| 1 <= i < child_path.len() implies #[trigger] child_path[i] < 7 by {
        if i < path.len() {
            assert(child_path[i] == path[i]);
        }
    }
    assert(all.drop_first() =~= tail@);
    assert(head@[0] == all[0]);
    match &mut head[0] {
        Some(node) => {
            proof {
                lemma_child(cell_of_path(path), d as u64);
            }
            stack.push(d as u8);
            node.collect_mut(stack, out, Ghost(child_path));
            stack.pop();
        },
        None => {},
    }
    let ghost mid = out@;
    collect_slots_mut(tail, d + 1, stack, out, Ghost(path), Ghost(h));
    proof {
        assert(out@.subrange(0, before.len() as int) =~= mid.subrange(0, before.len() as int));
        assert(out@.subrange(0, before.len() as int) =~= before);
        assert(entries_mut_view(out@.subrange(before.len() as int, out@.len() as int)) =~= entries_mut_view(
            mid.subrange(before.len() as int, mid.len() as int),
        ) + entries_mut_view(out@.subrange(mid.len() as int, out@.len() as int)));
    }
}

} // verus!
