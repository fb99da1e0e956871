//! A hierarchical map and set keyed by H3 cells, with an in-memory trie
//! and a compact on-disk image of it.

use vstd::prelude::*;

mod cell;
pub mod compaction;
mod digits;
pub mod disktree;
mod dptr;
mod entry;
mod error;
pub mod hex_tree_map;
mod node;
pub mod varint;

pub use crate::cell::{Cell, CellStack, Index};
pub use crate::digits::Digits;
pub use crate::entry::{Entry, OccupiedEntry, VacantEntry};
pub use crate::error::Error;
pub use crate::disktree::{DiskIter, DiskTreeMap};
pub use crate::hex_tree_map::HexTreeMap;

verus! {

/// A set of cells: a map to `()` that coalesces seven present siblings
/// into their parent.
pub type HexTreeSet = HexTreeMap<(), compaction::SetCompactor>;

} // verus!
