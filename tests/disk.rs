use hextree::compaction::EqCompactor;
use hextree::disktree::DiskIter;
use hextree::{Cell, DiskTreeMap, Error, HexTreeMap};

/// Everything an iterator hands out, the leaves and then the error, if any.
fn drain<'a>(mut it: DiskIter<'a>) -> Vec<Result<(Cell, &'a [u8]), Error>> {
    let mut out = Vec::new();
    while let Some(item) = it.next() {
        out.push(item);
    }
    out
}

/// The leaves an iterator hands out, when it runs into no error.
fn leaves<'a>(it: DiskIter<'a>) -> Vec<(Cell, &'a [u8])> {
    drain(it).into_iter().map(|r| r.unwrap()).collect()
}

fn cell(raw: u64) -> Cell {
    Cell::from_raw(raw).unwrap()
}

fn encode_bytes(val: &&[u8]) -> Result<Vec<u8>, Error> {
    Ok(val.to_vec())
}

#[test]
fn test_empty_disktree() {
    let mut wtr = vec![];
    HexTreeMap::<&[u8]>::new()
        .to_disktree(&mut wtr, encode_bytes)
        .unwrap();
    let disktree = DiskTreeMap::with_buf(&wtr).unwrap();
    assert_eq!(0, drain(disktree.iter().unwrap()).len());
}

#[test]
fn empty_image_is_header_and_null_pointers() {
    let mut wtr = vec![];
    HexTreeMap::<u8>::new()
        .to_disktree(&mut wtr, |v: &u8| Ok::<Vec<u8>, ()>(vec![*v]))
        .unwrap();
    assert_eq!(wtr.len(), 8 + 1 + 122 * 5);
    assert_eq!(&wtr[..8], b"hextree\0");
    assert_eq!(wtr[8], 0xFE);
    assert!(wtr[9..].iter().all(|b| *b == 0));
    let disktree = DiskTreeMap::with_buf(&wtr).unwrap();
    assert_eq!(disktree.get(cell(0x85283473fffffff)), Ok(None));
    assert_eq!(disktree.contains(cell(0x8029fffffffffff)), Ok(false));
    assert_eq!(drain(disktree.descendants(cell(0x8029fffffffffff)).unwrap()).len(), 0);
}

fn sample_map() -> HexTreeMap<Vec<u8>> {
    let mut map = HexTreeMap::new();
    let raws = [
        0x8c3969a41da15ffu64,
        0x85283473fffffff,
        0x835996fffffffff,
        0x835990fffffffff,
        0x863969a47ffffff,
        0x863969a6fffffff,
    ];
    for (i, raw) in raws.iter().enumerate() {
        let len = i * 40;
        map.insert(cell(*raw), (0..len).map(|b| b as u8).collect());
    }
    map
}

#[test]
fn round_trip_keeps_entries_and_order() {
    let map = sample_map();
    let mut wtr = vec![];
    map.to_disktree(&mut wtr, |v: &Vec<u8>| Ok::<Vec<u8>, ()>(v.clone()))
        .unwrap();
    let disktree = DiskTreeMap::with_buf(&wtr).unwrap();
    let from_disk: Vec<(Cell, Vec<u8>)> = leaves(disktree.iter().unwrap())
        .into_iter()
        .map(|(c, v)| (c, v.to_vec()))
        .collect();
    let from_map: Vec<(Cell, Vec<u8>)> = map.iter().into_iter().map(|(c, v)| (c, v.clone())).collect();
    assert_eq!(from_disk, from_map);
    for (c, v) in map.iter() {
        assert_eq!(disktree.get(c), Ok(Some((c, v.as_slice()))));
        assert_eq!(disktree.contains(c), Ok(true));
    }
    // A finer cell under a leaf is found through its ancestor.
    let finer = cell(0x873969a40ffffff);
    let leaf = cell(0x863969a47ffffff);
    let (found, _) = disktree.get(finer).unwrap().unwrap();
    assert_eq!(found, leaf);
    assert_eq!(disktree.get(cell(0x85283477fffffff)), Ok(None));
}

#[test]
fn disk_descendants_match_map_descendants() {
    let map = sample_map();
    let mut wtr = vec![];
    map.to_disktree(&mut wtr, |v: &Vec<u8>| Ok::<Vec<u8>, ()>(v.clone()))
        .unwrap();
    let disktree = DiskTreeMap::with_buf(&wtr).unwrap();
    for raw in [0x8029fffffffffffu64, 0x81397ffffffffff, 0x853969a7fffffff, 0x863969a47ffffff, 0x873969a40ffffff] {
        let c = cell(raw);
        let on_disk: Vec<Cell> = leaves(disktree.descendants(c).unwrap()).into_iter().map(|e| e.0).collect();
        let in_memory: Vec<Cell> = map.descendants(c).into_iter().map(|e| e.0).collect();
        assert_eq!(on_disk, in_memory);
    }
    let leaf = cell(0x863969a47ffffff);
    let under_leaf = leaves(disktree.descendants(leaf).unwrap());
    assert_eq!(under_leaf.len(), 1);
    assert_eq!(under_leaf[0].0, leaf);
}

#[test]
fn compacted_map_round_trips() {
    let mut map = HexTreeMap::with_compactor(EqCompactor);
    for d in 0..7u64 {
        map.insert(cell(0x835990fffffffff + (d << 36)), 9u8);
    }
    let mut wtr = vec![];
    map.to_disktree(&mut wtr, |v: &u8| Ok::<Vec<u8>, ()>(vec![*v]))
        .unwrap();
    let disktree = DiskTreeMap::with_buf(&wtr).unwrap();
    let parent = cell(0x825997fffffffff);
    assert_eq!(disktree.get(cell(0x835993fffffffff)), Ok(Some((parent, &[9u8][..]))));
    assert_eq!(leaves(disktree.iter().unwrap()).len(), 1);
}

#[test]
fn encoder_failure_is_a_writer_error() {
    let map = sample_map();
    let mut wtr = vec![];
    let r = map.to_disktree(&mut wtr, |_v: &Vec<u8>| Err::<Vec<u8>, &str>("no"));
    assert_eq!(r, Err(Error::Writer));
}

#[test]
fn opening_bad_images_fails() {
    assert_eq!(DiskTreeMap::with_buf(&[0x68, 0x65]).err(), Some(Error::Io));
    assert_eq!(DiskTreeMap::with_buf(&b"hextreeX\xfe"[..]).err(), Some(Error::NotDisktree));
    assert_eq!(DiskTreeMap::with_buf(&b"hextree\0"[..]).err(), Some(Error::Io));
    assert_eq!(DiskTreeMap::with_buf(&b"hextree\0\xfd"[..]).err(), Some(Error::Version(1)));
    // A header with no base pointers is accepted, but reading it fails.
    let short = DiskTreeMap::with_buf(&b"hextree\0\xfe"[..]).unwrap();
    assert_eq!(short.get(cell(0x85283473fffffff)), Err(Error::Io));
    assert!(matches!(short.iter(), Err(Error::Io)));
}

#[test]
fn iterator_hands_out_leaves_then_the_error_once() {
    let mut map = HexTreeMap::new();
    map.insert(cell(0x8029fffffffffff), 1u8);
    map.insert(cell(0x835990fffffffff), 2u8);
    let mut wtr = vec![];
    map.to_disktree(&mut wtr, |v: &u8| Ok::<Vec<u8>, ()>(vec![*v])).unwrap();
    // Point base cell 44's subtree past the end of the image.
    let at = 9 + 5 * 44;
    let bad = (wtr.len() as u64 + 100).to_le_bytes();
    wtr[at..at + 5].copy_from_slice(&bad[..5]);
    let disktree = DiskTreeMap::with_buf(&wtr).unwrap();
    let mut it = disktree.iter().unwrap();
    let first = it.next().unwrap().unwrap();
    assert_eq!(first.0, cell(0x8029fffffffffff));
    assert_eq!(first.1, &[1u8][..]);
    assert!(matches!(it.next(), Some(Err(Error::Io))));
    assert!(it.next().is_none());
    assert!(it.next().is_none());
}
