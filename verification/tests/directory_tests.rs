use tile_archive::Directory;
use tile_archive::TileEntry;
use tile_archive::TileKey;

fn key(z: u8, x: u32, y: u32) -> TileKey {
    TileKey { z, x, y }
}

fn entry(offset: u64, length: u32) -> TileEntry {
    TileEntry { offset, length }
}

#[test]
fn empty_directory_finds_nothing() {
    let d = Directory::new();
    assert_eq!(d.len(), 0);
    assert_eq!(d.get(key(0, 0, 0)), None);
}

#[test]
fn insert_then_get() {
    let mut d = Directory::new();
    d.insert(key(5, 1, 2), entry(100, 4));
    d.insert(key(6, 3, 4), entry(200, 8));
    assert_eq!(d.len(), 2);
    assert_eq!(d.get(key(5, 1, 2)), Some(entry(100, 4)));
    assert_eq!(d.get(key(6, 3, 4)), Some(entry(200, 8)));
    assert_eq!(d.get(key(5, 2, 1)), None);
}

#[test]
fn insert_replaces_under_same_key() {
    let mut d = Directory::new();
    d.insert(key(5, 1, 2), entry(100, 4));
    d.insert(key(5, 1, 2), entry(300, 6));
    assert_eq!(d.len(), 1);
    assert_eq!(d.get(key(5, 1, 2)), Some(entry(300, 6)));
}

fn rec(z: u8, leaf: bool, x: u32, y: u32, offset: u64, length: u32) -> Vec<u8> {
    let mut r = Vec::new();
    r.push(if leaf { z | 0x80 } else { z });
    r.extend_from_slice(&x.to_le_bytes()[..3]);
    r.extend_from_slice(&y.to_le_bytes()[..3]);
    r.extend_from_slice(&offset.to_le_bytes()[..6]);
    r.extend_from_slice(&length.to_le_bytes());
    r
}

#[test]
fn decode_keeps_one_entry_per_distinct_record() {
    // Two regular records and one leaf record, all with distinct keys: the
    // two directories together hold exactly one entry per record.
    let mut run = rec(5, false, 1, 2, 100, 4);
    run.extend_from_slice(&rec(6, false, 3, 4, 200, 8));
    run.extend_from_slice(&rec(10, true, 1, 1, 300, 17));
    let (regular, leaves, leaf_level) = tile_archive::directory::load_directory(&run, 0, 3);
    assert_eq!(regular.len() + leaves.len(), 3);
    assert_eq!(regular.len(), 2);
    assert_eq!(leaf_level, 10);
    assert_eq!(regular.get(key(5, 1, 2)), Some(entry(100, 4)));
    assert_eq!(leaves.get(key(10, 1, 1)), Some(entry(300, 17)));
}

#[test]
fn decode_reads_only_the_run() {
    // The same record run embedded after different surrounding bytes
    // decodes to the same directories.
    let mut run = rec(5, false, 1, 2, 100, 4);
    run.extend_from_slice(&rec(10, true, 1, 1, 300, 17));
    let mut padded1 = vec![0xAAu8; 7];
    padded1.extend_from_slice(&run);
    padded1.extend_from_slice(&[0xBB; 3]);
    let mut padded2 = vec![0x11u8; 7];
    padded2.extend_from_slice(&run);
    let (r1, l1, lev1) = tile_archive::directory::load_directory(&padded1, 7, 2);
    let (r2, l2, lev2) = tile_archive::directory::load_directory(&padded2, 7, 2);
    assert_eq!(lev1, lev2);
    assert_eq!(r1.len(), r2.len());
    assert_eq!(l1.len(), l2.len());
    assert_eq!(r1.get(key(5, 1, 2)), r2.get(key(5, 1, 2)));
    assert_eq!(l1.get(key(10, 1, 1)), l2.get(key(10, 1, 1)));
}

#[test]
fn keys_differ_by_any_component() {
    let mut d = Directory::new();
    d.insert(key(1, 2, 3), entry(1, 1));
    assert_eq!(d.get(key(2, 2, 3)), None);
    assert_eq!(d.get(key(1, 3, 3)), None);
    assert_eq!(d.get(key(1, 2, 4)), None);
}
