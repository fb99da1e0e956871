//! The entry API of [HexTreeMap]: look a cell up once, then read, modify
//! or fill what is there.

use crate::cell::Cell;
use crate::compaction::Compactor;
use crate::cell::digits_of;
use crate::hex_tree_map::{entry_filled, insert_step, HexTreeMap};
use crate::node::{digits_in_range, never_compacts};
use vstd::prelude::*;

verus! {

/// A view into a single entry in a map, which may either be vacant or
/// occupied.
pub enum Entry<'a, V, C> {
    /// A leaf covers the cell.
    Occupied(OccupiedEntry<'a, V>),
    /// No leaf covers the cell.
    Vacant(VacantEntry<'a, V, C>),
}

/// An entry whose cell is covered by a leaf.
pub struct OccupiedEntry<'a, V> {
    /// The cell asked for.
    pub target_cell: Cell,
    /// The covering leaf's cell and its value.
    pub cell_value: (Cell, &'a mut V),
}

/// An entry whose cell no leaf covers.
pub struct VacantEntry<'a, V, C> {
    /// The cell asked for.
    pub target_cell: Cell,
    /// The map to insert into.
    pub map: &'a mut HexTreeMap<V, C>,
}

impl<V, C> HexTreeMap<V, C> {
    /// The entry for `cell`: occupied when a leaf covers it.
    pub fn entry(&mut self, cell: Cell) -> (r: Entry<'_, V, C>)
        requires
            old(self).wf(),
        ensures
            match old(self).get_spec(cell@) {
                None => r matches Entry::Vacant(e) && e.target_cell == cell && *e.map == *old(self)
                    && *final(self) == *final(e.map),
                Some((a, v)) => r matches Entry::Occupied(e) && e.target_cell == cell
                    && e.cell_value.0@ == a && *e.cell_value.1 == v && final(self).wf()
                    && final(self).get_spec(cell@) == Some((a, *final(e.cell_value.1))),
            },
    {
        if self.get(cell).is_none() {
            return Entry::Vacant(VacantEntry { target_cell: cell, map: self });
        }
        let cell_value = self.get_mut(cell).unwrap();
        Entry::Occupied(OccupiedEntry { target_cell: cell, cell_value })
    }
}

impl<'a, V, C: Compactor<V>> Entry<'a, V, C> {
    /// The value in the entry, inserting `default` at the cell first when
    /// it is vacant; with the cell of the leaf that holds it.
    pub fn or_insert(self, default: V) -> (r: (Cell, &'a mut V))
        requires
            self matches Entry::Vacant(e) ==> e.map.wf() && digits_in_range(digits_of(e.target_cell@)),
        ensures
            self matches Entry::Occupied(e) ==> r == e.cell_value,
            self matches Entry::Vacant(e) ==> final(e.map).wf() && final(e.map).get_spec(
                e.target_cell@,
            ) == Some((r.0@, *final(r.1))) && (r.0 == e.target_cell ==> *r.1 == default),
            self matches Entry::Vacant(e) ==> (never_compacts::<V, C>() && e.map.get_spec(
                e.target_cell@,
            ) is None ==> r.0@ == e.target_cell@ && *r.1 == default),
            self matches Entry::Vacant(e) ==> entry_filled::<V, C>(
                e.map.roots(),
                final(e.map).roots(),
                e.target_cell@,
                default,
                *final(r.1),
            ),
    {
        match self {
            Entry::Occupied(OccupiedEntry { target_cell: _, cell_value }) => cell_value,
            Entry::Vacant(VacantEntry { target_cell, map }) => {
                let ghost before = map.roots();
                map.insert(target_cell, default);
                let ghost mid = map.roots();
                assert(insert_step::<V, C>(before, mid, target_cell@, default));
                assert(map.get_spec(target_cell@) is Some);
                map.get_mut(target_cell).unwrap()
            },
        }
    }
}

impl<'a, V, C: Compactor<V>> Entry<'a, V, C> {
    /// The value in the entry, inserting the result of `default` at the
    /// cell first when it is vacant; with the cell of the leaf that holds
    /// it.
    pub fn or_insert_with<F: FnOnce() -> V>(self, default: F) -> (r: (Cell, &'a mut V))
        requires
            self matches Entry::Vacant(e) ==> e.map.wf() && default.requires(()) && digits_in_range(
                digits_of(e.target_cell@),
            ),
        ensures
            self matches Entry::Occupied(e) ==> r == e.cell_value,
            self matches Entry::Vacant(e) ==> final(e.map).wf() && final(e.map).get_spec(
                e.target_cell@,
            ) == Some((r.0@, *final(r.1))) && (r.0 == e.target_cell ==> default.ensures(
                (),
                *r.1,
            )),
            self matches Entry::Vacant(e) ==> (never_compacts::<V, C>() && e.map.get_spec(
                e.target_cell@,
            ) is None ==> r.0@ == e.target_cell@ && default.ensures((), *r.1)),
            self matches Entry::Vacant(e) ==> exists|v: V|
                #[trigger] default.ensures((), v) && entry_filled::<V, C>(
                    e.map.roots(),
                    final(e.map).roots(),
                    e.target_cell@,
                    v,
                    *final(r.1),
                ),
    {
        match self {
            Entry::Occupied(OccupiedEntry { target_cell: _, cell_value }) => cell_value,
            Entry::Vacant(VacantEntry { target_cell, map }) => {
                let value = default();
                map.insert(target_cell, value);
                map.get_mut(target_cell).unwrap()
            },
        }
    }

    /// Calls `f` on the covering leaf's cell and value when the entry is
    /// occupied; hands the entry back.
    pub fn and_modify<F: FnOnce(Cell, &mut V)>(self, f: F) -> (r: Self)
        requires
            forall|c: Cell, v: &mut V| #[trigger] f.requires((c, v)),
        ensures
            self is Vacant ==> r == self,
            self matches Entry::Occupied(e) ==> r matches Entry::Occupied(o) && o.target_cell
                == e.target_cell && o.cell_value.0 == e.cell_value.0 && exists|m: &mut V|
                *m == *e.cell_value.1 && *final(m) == *o.cell_value.1 && #[trigger] f.ensures(
                    (e.cell_value.0, m),
                    (),
                ),
    {
        match self {
            Entry::Occupied(OccupiedEntry { target_cell, cell_value: (cell, value) }) => {
                f(cell, &mut *value);
                Entry::Occupied(OccupiedEntry { target_cell, cell_value: (cell, value) })
            },
            Entry::Vacant(_) => self,
        }
    }
}

impl<'a, V: Default, C: Compactor<V>> Entry<'a, V, C> {
    /// The value in the entry, inserting `V::default()` at the cell first
    /// when it is vacant; with the cell of the leaf that holds it.
    pub fn or_default(self) -> (r: (Cell, &'a mut V))
        requires
            self matches Entry::Vacant(e) ==> e.map.wf() && digits_in_range(digits_of(e.target_cell@)),
        ensures
            self matches Entry::Occupied(e) ==> r == e.cell_value,
            self matches Entry::Vacant(e) ==> final(e.map).wf() && final(e.map).get_spec(
                e.target_cell@,
            ) == Some((r.0@, *final(r.1))),
            self matches Entry::Vacant(e) ==> (never_compacts::<V, C>() && e.map.get_spec(
                e.target_cell@,
            ) is None ==> r.0@ == e.target_cell@ && call_ensures(V::default, (), *r.1)),
            self matches Entry::Vacant(e) ==> exists|v: V|
                #[trigger] call_ensures(V::default, (), v) && entry_filled::<V, C>(
                    e.map.roots(),
                    final(e.map).roots(),
                    e.target_cell@,
                    v,
                    *final(r.1),
                ),
    {
        match self {
            Entry::Occupied(OccupiedEntry { target_cell: _, cell_value }) => cell_value,
            Entry::Vacant(VacantEntry { target_cell, map }) => {
                let value = V::default();
                map.insert(target_cell, value);
                map.get_mut(target_cell).unwrap()
            },
        }
    }
}

} // verus!
