use hextree::compaction::{EqCompactor, NullCompactor, SetCompactor};
use hextree::{Cell, HexTreeMap, HexTreeSet};

fn cell(raw: u64) -> Cell {
    Cell::from_raw(raw).unwrap()
}

#[test]
fn test_visit() {
    let parent = cell(0x825997fffffffff);
    let children = [
        cell(0x835990fffffffff),
        cell(0x835991fffffffff),
        cell(0x835992fffffffff),
        cell(0x835993fffffffff),
        cell(0x835994fffffffff),
        cell(0x835995fffffffff),
        cell(0x835996fffffffff),
    ];

    let hexmap: HexTreeMap<Cell> = HexTreeMap::from_iter(children.iter().map(|c| (*c, *c)).collect());
    let visited = hexmap.descendants(parent);

    for (expected, (actual_k, actual_v)) in children.iter().zip(visited.iter()) {
        assert_eq!(expected, *actual_v);
        assert_eq!(expected.res(), actual_k.res());
        assert_eq!(expected, actual_k);
    }
    assert_eq!(children.len(), visited.len());
}

#[test]
fn insert_then_get_finds_cell_and_covers_descendants() {
    let mut map = HexTreeMap::new();
    let c = cell(0x85283473fffffff);
    map.insert(c, "A");
    assert_eq!(map.get(c), Some((c, &"A")));
    assert!(map.contains(c));
    // A finer cell under `c` is covered by `c`'s leaf.
    let child = cell(0x862834707ffffff);
    assert_eq!(child.to_parent(5), Some(c));
    assert_eq!(map.get(child), Some((c, &"A")));
    // The parent of `c` is not covered.
    let parent = c.to_parent(4).unwrap();
    assert_eq!(map.get(parent), None);
    assert!(!map.contains(parent));
    assert_eq!(map.len(), 1);
}

#[test]
fn insert_under_existing_leaf_is_dropped() {
    let mut map = HexTreeMap::new();
    let c = cell(0x85283473fffffff);
    map.insert(c, 1);
    let child = cell(0x862834707ffffff);
    map.insert(child, 2);
    assert_eq!(map.get(child), Some((c, &1)));
    assert_eq!(map.len(), 1);
}

#[test]
fn eq_compactor_coalesces_seven_equal_children() {
    let parent = cell(0x825997fffffffff);
    let children = [
        cell(0x835990fffffffff),
        cell(0x835991fffffffff),
        cell(0x835992fffffffff),
        cell(0x835993fffffffff),
        cell(0x835994fffffffff),
        cell(0x835995fffffffff),
        cell(0x835996fffffffff),
    ];
    let mut map = HexTreeMap::with_compactor(EqCompactor);
    for (i, c) in children.iter().enumerate() {
        map.insert(*c, 42);
        assert_eq!(map.len(), if i < 6 { i + 1 } else { 1 });
    }
    assert_eq!(map.len(), 1);
    for c in children.iter() {
        assert_eq!(map.get(*c), Some((parent, &42)));
    }
}

#[test]
fn eq_compactor_keeps_unequal_children() {
    let children = [
        cell(0x835990fffffffff),
        cell(0x835991fffffffff),
        cell(0x835992fffffffff),
        cell(0x835993fffffffff),
        cell(0x835994fffffffff),
        cell(0x835995fffffffff),
        cell(0x835996fffffffff),
    ];
    let mut map = HexTreeMap::with_compactor(EqCompactor);
    for (i, c) in children.iter().enumerate() {
        map.insert(*c, if i == 3 { 7 } else { 42 });
    }
    assert_eq!(map.len(), 7);
    assert_eq!(map.get(children[3]), Some((children[3], &7)));
}

#[test]
fn null_compactor_never_coalesces() {
    let mut map = HexTreeMap::with_compactor(NullCompactor);
    for d in 0..7u64 {
        map.insert(cell(0x835990fffffffff + (d << 36)), ());
    }
    assert_eq!(map.len(), 7);
}

#[test]
fn set_compactor_coalesces_seven_present_children() {
    let mut set: HexTreeSet = HexTreeMap::with_compactor(SetCompactor);
    let parent = cell(0x825997fffffffff);
    for d in 0..7u64 {
        set.insert(cell(0x835990fffffffff + (d << 36)), ());
    }
    assert_eq!(set.len(), 1);
    assert_eq!(set.iter().len(), 1);
    assert_eq!(set.iter()[0].0, parent);
    assert!(set.contains(cell(0x835993fffffffff)));
}

#[test]
fn res0_insert_replaces_base_subtree() {
    let mut map = HexTreeMap::new();
    map.insert(cell(0x85283473fffffff), 1);
    map.insert(cell(0x862834707ffffff), 2);
    let base = cell(0x8029fffffffffff);
    map.insert(base, 3);
    assert_eq!(map.len(), 1);
    assert_eq!(map.get(cell(0x85283473fffffff)), Some((base, &3)));
    let all = map.iter();
    assert_eq!(all.len(), 1);
    assert_eq!(all[0], (base, &3));
}

#[test]
fn iteration_is_ordered_and_each_leaf_is_found() {
    let mut map = HexTreeMap::new();
    let raws = [
        0x8c3969a41da15ffu64,
        0x85283473fffffff,
        0x835996fffffffff,
        0x835990fffffffff,
        0x8029fffffffffff,
    ];
    for (i, raw) in raws.iter().enumerate() {
        map.insert(cell(*raw), i);
    }
    let entries = map.iter();
    assert_eq!(entries.len(), map.len());
    let mut keys: Vec<u64> = Vec::new();
    for (c, v) in entries.iter() {
        assert_eq!(map.get(*c), Some((*c, *v)));
        keys.push(c.into_raw());
    }
    // base 20 (one leaf at res 0 swallowed the res-5 cell), then base 28,
    // then base 44.
    assert_eq!(keys, vec![0x8029fffffffffff, 0x8c3969a41da15ff, 0x835990fffffffff, 0x835996fffffffff]);
    for (i, a) in entries.iter().enumerate() {
        for b in entries.iter().skip(i + 1) {
            assert!(!a.0.is_related_to(&b.0));
        }
    }
}

#[test]
fn descendants_of_unrelated_cell_is_empty() {
    let mut map = HexTreeMap::new();
    let inside = cell(0x863969a47ffffff);
    map.insert(inside, 1);
    let outside = cell(0x863969a6fffffff);
    map.insert(outside, 2);
    assert_eq!(map.descendants(inside), vec![(inside, &1)]);
    let ancestor = inside.to_parent(5).unwrap();
    assert_eq!(map.descendants(ancestor), vec![(inside, &1), (outside, &2)]);
    let res1 = inside.to_parent(1).unwrap();
    assert_eq!(map.descendants(res1).len(), 2);
    assert!(map.descendants(cell(0x85283473fffffff)).is_empty());
    // A leaf covering the query cell is handed out alone.
    let finer = cell(0x873969a40ffffff);
    assert_eq!(map.descendants(finer), vec![(inside, &1)]);
}

#[test]
fn empty_map() {
    let map: HexTreeMap<u8> = HexTreeMap::new();
    assert!(map.is_empty());
    assert_eq!(map.len(), 0);
    assert!(map.iter().is_empty());
    assert_eq!(map.get(cell(0x85283473fffffff)), None);
}

#[test]
fn replace_compactor_keeps_contents() {
    let mut map = HexTreeMap::new();
    map.insert(cell(0x835990fffffffff), 5);
    let mut map = map.replace_compactor(EqCompactor);
    assert_eq!(map.len(), 1);
    for d in 1..7u64 {
        map.insert(cell(0x835990fffffffff + (d << 36)), 5);
    }
    assert_eq!(map.len(), 1);
}

#[test]
fn get_mut_changes_the_covering_leaf() {
    let mut map = HexTreeMap::new();
    let c = cell(0x85283473fffffff);
    map.insert(c, 1);
    let child = cell(0x862834707ffffff);
    {
        let (found, v) = map.get_mut(child).unwrap();
        assert_eq!(found, c);
        *v = 5;
    }
    assert_eq!(map.get(c), Some((c, &5)));
    assert!(map.get_mut(cell(0x85283477fffffff)).is_none());
    assert_eq!(*map.index(child), 5);
}

#[test]
fn entry_api() {
    let mut map = HexTreeMap::new();
    let eiffel_tower_res12 = cell(0x8c1fb46741ae9ff);
    map.entry(eiffel_tower_res12)
        .and_modify(|_actual_cell, v| *v = "Paris")
        .or_insert("France");
    assert_eq!(*map.index(eiffel_tower_res12), "France");
    map.entry(eiffel_tower_res12)
        .and_modify(|_actual_cell, v| *v = "Paris")
        .or_insert("France");
    assert_eq!(*map.index(eiffel_tower_res12), "Paris");

    let other = cell(0x85283473fffffff);
    map.entry(other).or_insert_with(|| "Somewhere");
    assert_eq!(*map.index(other), "Somewhere");

    let mut counts: HexTreeMap<u32> = HexTreeMap::new();
    let (_, n) = counts.entry(other).or_default();
    *n += 1;
    let (_, n) = counts.entry(other).or_default();
    *n += 1;
    assert_eq!(counts.get(other), Some((other, &2)));
}

#[test]
fn extend_and_from_iter() {
    let pairs = vec![
        (cell(0x835990fffffffff), 1),
        (cell(0x835991fffffffff), 2),
        (cell(0x85283473fffffff), 3),
    ];
    let map = HexTreeMap::from_iter(pairs.clone());
    assert_eq!(map.len(), 3);
    for (c, v) in pairs.iter() {
        assert_eq!(map.get(*c), Some((*c, v)));
    }
    let mut eq_map = HexTreeMap::with_compactor(EqCompactor);
    eq_map.extend((0..7u64).map(|d| (cell(0x835990fffffffff + (d << 36)), 4)).collect());
    assert_eq!(eq_map.len(), 1);
    let set = HexTreeSet::from_cells((0..7u64).map(|d| cell(0x835990fffffffff + (d << 36))).collect());
    assert_eq!(set.len(), 1);
    assert!(set.contains(cell(0x835995fffffffff)));
}

#[test]
fn iter_mut_updates_every_value() {
    let mut map = HexTreeMap::new();
    let raws = [0x8c3969a41da15ffu64, 0x85283473fffffff, 0x835996fffffffff, 0x835990fffffffff];
    for (i, raw) in raws.iter().enumerate() {
        map.insert(cell(*raw), i as i32);
    }
    let keys: Vec<Cell> = map.iter_mut().into_iter().map(|(c, _)| c).collect();
    let expected: Vec<Cell> = map.iter().into_iter().map(|(c, _)| c).collect();
    assert_eq!(keys, expected);
    for (_, value) in map.iter_mut() {
        *value += 1;
    }
    for (i, raw) in raws.iter().enumerate() {
        assert_eq!(map.get(cell(*raw)), Some((cell(*raw), &(i as i32 + 1))));
    }
}

#[test]
fn descendants_mut_updates_only_the_subtree() {
    let mut map = HexTreeMap::new();
    let inside = cell(0x863969a47ffffff);
    let outside = cell(0x85283473fffffff);
    map.insert(inside, 10);
    map.insert(outside, 20);
    let res1 = inside.to_parent(1).unwrap();
    for (_, v) in map.descendants_mut(res1) {
        *v += 1;
    }
    assert_eq!(map.get(inside), Some((inside, &11)));
    assert_eq!(map.get(outside), Some((outside, &20)));
    // A finer cell under a leaf hands out that leaf.
    let finer = cell(0x873969a40ffffff);
    let under = map.descendants_mut(finer);
    assert_eq!(under.len(), 1);
    assert_eq!(under[0].0, inside);
}

#[test]
fn compacted_and_direct_sets_are_equal() {
    let mut compacted: HexTreeSet = HexTreeMap::with_compactor(SetCompactor);
    for d in 0..7u64 {
        compacted.insert(cell(0x835990fffffffff + (d << 36)), ());
    }
    let mut direct: HexTreeSet = HexTreeMap::with_compactor(SetCompactor);
    direct.insert(cell(0x825997fffffffff), ());
    assert!(compacted == direct);
    assert_eq!(compacted.len(), direct.len());
}

#[test]
fn digit_seven_paths_are_absent() {
    let mut map = HexTreeMap::new();
    // res 5 with a 7 as its fifth digit: no child slot holds it
    let odd = cell(0x8528347ffffffff);
    map.insert(odd, 1);
    assert_eq!(map.get(odd), None);
    assert!(!map.contains(odd));
    assert_eq!(map.len(), 0);
    let parent = odd.to_parent(4).unwrap();
    map.insert(parent, 2);
    assert_eq!(map.get(odd), Some((parent, &2)));
}
