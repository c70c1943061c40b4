use tile_archive::ArchiveError;
use tile_archive::Reader;

fn make_mmap(bytes: &[u8]) -> memmap2::Mmap {
    let mut m = memmap2::MmapMut::map_anon(bytes.len()).unwrap();
    m.copy_from_slice(bytes);
    m.make_read_only().unwrap()
}

fn rec(z: u8, leaf: bool, x: u32, y: u32, offset: u64, length: u32) -> Vec<u8> {
    let mut r = Vec::new();
    r.push(if leaf { z | 0x80 } else { z });
    r.extend_from_slice(&x.to_le_bytes()[..3]);
    r.extend_from_slice(&y.to_le_bytes()[..3]);
    r.extend_from_slice(&offset.to_le_bytes()[..6]);
    r.extend_from_slice(&length.to_le_bytes());
    r
}

fn archive(version: u16, metadata: &[u8], records: &[Vec<u8>]) -> Vec<u8> {
    let mut v = vec![0x50u8, 0x4D];
    v.extend_from_slice(&version.to_le_bytes());
    v.extend_from_slice(&(metadata.len() as u32).to_le_bytes());
    v.extend_from_slice(&(records.len() as u16).to_le_bytes());
    v.extend_from_slice(metadata);
    for r in records {
        v.extend_from_slice(r);
    }
    v
}

#[test]
fn single_root_entry_scenario() {
    // Header {magic, version=3, metadata_len=2, root_entries=1}, metadata
    // "{}", one entry (5, 1, 2) pointing at the 4-byte payload "DEAD".
    let mut bytes = archive(3, b"{}", &[rec(5, false, 1, 2, 29, 4)]);
    assert_eq!(bytes.len(), 29);
    bytes.extend_from_slice(b"DEAD");
    let reader = Reader::new(make_mmap(&bytes)).unwrap();
    assert_eq!(reader.get_version(), 3);
    assert_eq!(reader.get(5, 1, 2), Ok(Some(&b"DEAD"[..])));
    assert_eq!(reader.get(5, 1, 3), Ok(None));
    assert_eq!(reader.root_entries_len(), 1);
    assert_eq!(reader.leaves_len(), 0);
}

#[test]
fn leaf_delegation_scenario() {
    // One root entry flagged as a leaf pointer at zoom 10 for coarse cell
    // (1, 1); its target is a 17-byte fragment holding (12, 4, 4).  A lookup
    // at zoom 12 rescales (4, 4) by level_diff 2 down to (1, 1).
    let frag = rec(12, false, 4, 4, 44, 4);
    let mut bytes = archive(3, b"", &[rec(10, true, 1, 1, 27, 17)]);
    assert_eq!(bytes.len(), 27);
    bytes.extend_from_slice(&frag);
    bytes.extend_from_slice(b"TILE");
    let reader = Reader::new(make_mmap(&bytes)).unwrap();
    assert_eq!(reader.leaves_len(), 1);
    assert_eq!(reader.get(12, 4, 4), Ok(Some(&b"TILE"[..])));
    // Same fragment, key absent inside it: a plain miss.
    assert_eq!(reader.get(12, 6, 6), Ok(None));
    // Rescales to a coarse cell with no leaf pointer: a plain miss.
    assert_eq!(reader.get(12, 8, 8), Ok(None));
}

#[test]
fn same_coarse_cell_same_fragment() {
    // (12, 4, 4) and (12, 5, 5) both rescale by 2 to (1, 1): the one
    // fragment serves both.
    let mut frag = rec(12, false, 4, 4, 61, 2);
    frag.extend_from_slice(&rec(12, false, 5, 5, 63, 2));
    let mut bytes = archive(3, b"", &[rec(10, true, 1, 1, 27, 34)]);
    bytes.extend_from_slice(&frag);
    assert_eq!(bytes.len(), 61);
    bytes.extend_from_slice(b"aabb");
    let reader = Reader::new(make_mmap(&bytes)).unwrap();
    assert_eq!(reader.get(12, 4, 4), Ok(Some(&b"aa"[..])));
    assert_eq!(reader.get(12, 5, 5), Ok(Some(&b"bb"[..])));
}

#[test]
fn leaf_level_lookup_without_shift() {
    // A lookup at exactly the leaf level probes with unshifted coordinates.
    let frag = rec(10, false, 1, 1, 44, 2);
    let mut bytes = archive(3, b"", &[rec(10, true, 1, 1, 27, 17)]);
    bytes.extend_from_slice(&frag);
    assert_eq!(bytes.len(), 44);
    bytes.extend_from_slice(b"ok");
    let reader = Reader::new(make_mmap(&bytes)).unwrap();
    assert_eq!(reader.get(10, 1, 1), Ok(Some(&b"ok"[..])));
}

#[test]
fn zoom_below_leaf_level_is_miss() {
    let frag = rec(10, false, 1, 1, 44, 2);
    let mut bytes = archive(3, b"", &[rec(10, true, 1, 1, 27, 17)]);
    bytes.extend_from_slice(&frag);
    bytes.extend_from_slice(b"ok");
    let reader = Reader::new(make_mmap(&bytes)).unwrap();
    assert_eq!(reader.get(7, 1, 1), Ok(None));
}

#[test]
fn huge_level_diff_rescales_to_origin() {
    // level_diff 50 shifts any coordinate down to 0.
    let frag = rec(60, false, 123, 456, 44, 2);
    let mut bytes = archive(3, b"", &[rec(10, true, 0, 0, 27, 17)]);
    bytes.extend_from_slice(&frag);
    bytes.extend_from_slice(b"hi");
    let reader = Reader::new(make_mmap(&bytes)).unwrap();
    assert_eq!(reader.get(60, 123, 456), Ok(Some(&b"hi"[..])));
}

#[test]
fn duplicate_key_last_record_wins() {
    let mut bytes = archive(
        3,
        b"",
        &[rec(5, false, 1, 2, 44, 2), rec(5, false, 1, 2, 46, 2)],
    );
    assert_eq!(bytes.len(), 44);
    bytes.extend_from_slice(b"old");
    bytes.extend_from_slice(b"x");
    let reader = Reader::new(make_mmap(&bytes)).unwrap();
    assert_eq!(reader.root_entries_len(), 2);
    assert_eq!(reader.get(5, 1, 2), Ok(Some(&b"dx"[..])));
}

#[test]
fn bad_magic_rejected() {
    let mut bytes = archive(3, b"", &[]);
    bytes[0] = 0x51;
    assert!(matches!(
        Reader::new(make_mmap(&bytes)),
        Err(ArchiveError::BadMagic)
    ));
}

#[test]
fn short_header_rejected() {
    let bytes = [0x50u8, 0x4D, 3, 0, 0];
    assert!(matches!(
        Reader::new(make_mmap(&bytes)),
        Err(ArchiveError::Truncated)
    ));
}

#[test]
fn truncated_directory_rejected() {
    // The header promises two records but the archive ends after the header.
    let mut bytes = archive(3, b"", &[]);
    bytes[8] = 2;
    assert!(matches!(
        Reader::new(make_mmap(&bytes)),
        Err(ArchiveError::Truncated)
    ));
}

#[test]
fn oversized_metadata_rejected() {
    let mut bytes = archive(3, b"{}", &[]);
    bytes[4] = 0xFF;
    bytes[5] = 0xFF;
    assert!(matches!(
        Reader::new(make_mmap(&bytes)),
        Err(ArchiveError::Truncated)
    ));
}

#[test]
fn fragment_length_not_multiple_of_17() {
    let mut bytes = archive(3, b"", &[rec(10, true, 1, 1, 27, 16)]);
    bytes.extend_from_slice(&[0u8; 16]);
    let reader = Reader::new(make_mmap(&bytes)).unwrap();
    assert_eq!(reader.get(12, 4, 4), Err(ArchiveError::MalformedDirectory));
}

#[test]
fn fragment_beyond_archive_rejected() {
    // Whole number of records, but the range reaches past the end.
    let bytes = archive(3, b"", &[rec(10, true, 1, 1, 40, 17)]);
    let reader = Reader::new(make_mmap(&bytes)).unwrap();
    assert_eq!(reader.get(12, 4, 4), Err(ArchiveError::Truncated));
}

#[test]
fn tile_beyond_archive_rejected() {
    let bytes = archive(3, b"", &[rec(5, false, 1, 2, 27, 50)]);
    let reader = Reader::new(make_mmap(&bytes)).unwrap();
    assert_eq!(reader.get(5, 1, 2), Err(ArchiveError::TileOutOfBounds));
}

#[test]
fn metadata_parsed_as_json() {
    let bytes = archive(3, b"{\"name\":\"hills\"}", &[]);
    let reader = Reader::new(make_mmap(&bytes)).unwrap();
    let value = reader.get_metadata().unwrap();
    assert_eq!(value["name"].as_str(), Some("hills"));
}

#[test]
fn empty_object_metadata() {
    let bytes = archive(3, b"{}", &[]);
    let reader = Reader::new(make_mmap(&bytes)).unwrap();
    let value = reader.get_metadata().unwrap();
    assert!(value.is_object());
    assert_eq!(value.as_object().unwrap().len(), 0);
}

#[test]
fn malformed_metadata_reported() {
    let bytes = archive(3, b"{\"name\"", &[]);
    let reader = Reader::new(make_mmap(&bytes)).unwrap();
    assert_eq!(
        reader.get_metadata(),
        Err(ArchiveError::MalformedMetadata)
    );
}

#[test]
fn version_field_read_back() {
    let bytes = archive(1027, b"", &[]);
    let reader = Reader::new(make_mmap(&bytes)).unwrap();
    assert_eq!(reader.get_version(), 1027);
}

#[test]
fn coordinates_decoded_little_endian() {
    // x = 0x030201 and y = 0x060504 exercise all three coordinate bytes.
    let mut bytes = archive(3, b"", &[rec(7, false, 0x030201, 0x060504, 27, 1)]);
    bytes.push(b'z');
    let reader = Reader::new(make_mmap(&bytes)).unwrap();
    assert_eq!(reader.get(7, 0x030201, 0x060504), Ok(Some(&b"z"[..])));
    assert_eq!(reader.get(7, 0x010203, 0x040506), Ok(None));
}
