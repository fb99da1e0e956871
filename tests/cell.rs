use hextree::{Cell, CellStack, Digits, Error, Index};

#[test]
fn cell_test_index_bitfields() {
    let idx = Index(0x85283473fffffff);
    assert!(!idx.reserved());
    assert_eq!(idx.mode(), 1);
    assert_eq!(idx.mode_dep(), 0);
    assert_eq!(idx.res(), 5);
    assert_eq!(idx.base(), 20);
    assert_eq!(idx.digit(1), Some(0));
    assert_eq!(idx.digit(2), Some(6));
    assert_eq!(idx.digit(3), Some(4));
    assert_eq!(idx.digit(4), Some(3));
    assert_eq!(idx.digit(5), Some(4));
    assert_eq!(idx.digit(6), Some(7));
    assert_eq!(idx.digit(7), Some(7));
    assert_eq!(idx.digit(8), Some(7));
    assert_eq!(idx.digit(9), Some(7));
    assert_eq!(idx.digit(10), Some(7));
    assert_eq!(idx.digit(11), Some(7));
    assert_eq!(idx.digit(12), Some(7));
    assert_eq!(idx.digit(13), Some(7));
    assert_eq!(idx.digit(14), Some(7));
    assert_eq!(idx.digit(15), Some(7));
}

#[test]
fn test_cell_to_parent() {
    let cell = Cell::from_raw(0x85283473fffffff).unwrap();
    let parent = cell.to_parent(cell.res()).unwrap();
    assert_eq!(cell, parent);
    let parent = cell.to_parent(4).unwrap();
    let parent_idx = Index(parent.into_raw());
    assert_eq!(parent.res(), 4);
    assert_eq!(parent_idx.digit(5), Some(7));
    assert_eq!(parent_idx.digit(4), Some(3));
    let parent = cell.to_parent(0).unwrap();
    let parent_idx = Index(parent.into_raw());
    assert_eq!(parent_idx.digit(4), Some(7));
    assert_eq!(parent_idx.digit(3), Some(7));
    assert_eq!(parent_idx.digit(2), Some(7));
    assert_eq!(parent_idx.digit(1), Some(7));
    assert_eq!(parent_idx.base(), 20);
}

#[test]
fn test_digits() {
    let test_cases: &[(u64, &[u8])] = &[
        (577164439745200127, &[]),
        (585793956755800063, &[2, 0]),
        (592638622797135871, &[6, 3, 2]),
        (596251300178427903, &[3, 6, 6, 2]),
        (599803672997658623, &[3, 4, 4, 1, 4]),
        (604614882611953663, &[1, 4, 0, 4, 1, 0]),
        (608557861265473535, &[2, 0, 2, 3, 2, 1, 1]),
    ];
    for (index, ref_digits) in test_cases {
        let cell = Cell::from_raw(*index).unwrap();
        let mut digits = Digits::new(cell);
        let mut collected = Vec::new();
        while let Some(d) = digits.next() {
            collected.push(d);
        }
        assert_eq!(&&collected, ref_digits);
    }
}

#[test]
fn from_raw_round_trips_valid_cells() {
    for raw in [0x85283473fffffffu64, 0x8c3969a41da15ff, 0x8001fffffffffff, 0x825997fffffffff] {
        assert_eq!(Cell::from_raw(raw).map(|c| c.into_raw()), Ok(raw));
    }
}

#[test]
fn from_raw_rejects_invalid_indices() {
    // reserved bit set
    let raw = 0x85283473fffffff | (1 << 63);
    assert_eq!(Cell::from_raw(raw), Err(Error::Index(raw)));
    // mode 2 (a directed edge)
    let raw = 0x115283473fffffff;
    assert_eq!(Cell::from_raw(raw), Err(Error::Index(raw)));
    // base cell 122
    let raw = 0x80f5fffffffffff;
    assert_eq!(Cell::from_raw(raw), Err(Error::Index(raw)));
}

#[test]
fn from_raw_checks_only_reserved_mode_and_base() {
    // mode-dependent bits set
    assert_eq!(Cell::from_raw(0x95283473fffffff).map(|c| c.into_raw()), Ok(0x95283473fffffff));
    // a digit of 7 at a resolution up to the cell's own
    assert!(Cell::from_raw(0x8528347ffffffff).is_ok());
    // a digit other than 7 past the cell's resolution
    assert!(Cell::from_raw(0x85283473ffffffe).is_ok());
}

#[test]
fn related_cells() {
    let cell = Cell::from_raw(0x85283473fffffff).unwrap();
    let parent = cell.to_parent(2).unwrap();
    let other = Cell::from_raw(0x8c3969a41da15ff).unwrap();
    assert!(cell.is_related_to(&parent));
    assert!(parent.is_related_to(&cell));
    assert!(cell.is_related_to(&cell));
    assert!(!cell.is_related_to(&other));
    assert_eq!(cell.to_parent(6), None);
}

#[test]
fn cell_stack_push_pop_swap() {
    let mut stack = CellStack::new();
    assert_eq!(stack.pop(), None);
    assert_eq!(stack.swap(3), None);
    stack.push(20);
    assert_eq!(stack.cell().map(|c| c.into_raw()), Some(0x8029fffffffffff));
    stack.push(0);
    stack.push(6);
    stack.push(4);
    stack.push(3);
    stack.push(4);
    assert_eq!(stack.cell().map(|c| c.into_raw()), Some(0x85283473fffffff));
    assert_eq!(stack.swap(5), Some(4));
    assert_eq!(stack.cell().map(|c| c.into_raw()), Some(0x85283477fffffff));
    assert_eq!(stack.pop(), Some(5));
    assert_eq!(stack.cell().map(|c| c.into_raw()), Some(0x8428347ffffffff));
    assert_eq!(stack.pop(), Some(3));
    assert_eq!(stack.pop(), Some(4));
    assert_eq!(stack.pop(), Some(6));
    assert_eq!(stack.pop(), Some(0));
    assert_eq!(stack.swap(21), Some(20));
    assert_eq!(stack.pop(), Some(21));
    assert!(stack.cell().is_none());
}

#[test]
fn index_test_index_bitfields() {
    let idx = Index(0x85283473fffffff);
    assert_eq!(idx.reserved(), false);
    assert_eq!(idx.mode(), 1);
    assert_eq!(idx.mode_dep(), 0);
    assert_eq!(idx.res(), 5);
    assert_eq!(idx.base(), 20);
    let expected = [0u8, 6, 4, 3, 4, 7, 7, 7, 7, 7, 7, 7, 7, 7, 7];
    for (r, d) in (1u8..=15).zip(expected.iter()) {
        assert_eq!(idx.digit(r), Some(*d));
    }
}

#[test]
fn test_index_to_parent() {
    let idx = Cell::from_raw(0x85283473fffffff).unwrap();
    let parent = idx.to_parent(idx.res()).unwrap();
    assert_eq!(idx, parent);
    let parent = idx.to_parent(4).unwrap();
    assert_eq!(parent.res(), 4);
    assert_eq!(Index(parent.into_raw()).digit(5), Some(7));
    assert_eq!(Index(parent.into_raw()).digit(4), Some(3));
    let parent = idx.to_parent(0).unwrap();
    assert_eq!(Index(parent.into_raw()).digit(4), Some(7));
    assert_eq!(Index(parent.into_raw()).digit(3), Some(7));
    assert_eq!(Index(parent.into_raw()).digit(2), Some(7));
    assert_eq!(Index(parent.into_raw()).digit(1), Some(7));
    assert_eq!(parent.base(), 20);
}
