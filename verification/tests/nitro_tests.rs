use nitrofs::nitro::{Entry, FsError, Filesystem};

fn put_u16(image: &mut Vec<u8>, pos: usize, value: u16) {
    image[pos] = (value & 0xFF) as u8;
    image[pos + 1] = (value >> 8) as u8;
}

fn put_u32(image: &mut Vec<u8>, pos: usize, value: u32) {
    image[pos] = (value & 0xFF) as u8;
    image[pos + 1] = ((value >> 8) & 0xFF) as u8;
    image[pos + 2] = ((value >> 16) & 0xFF) as u8;
    image[pos + 3] = ((value >> 24) & 0xFF) as u8;
}

fn put_bytes(image: &mut Vec<u8>, pos: usize, bytes: &[u8]) {
    for (i, b) in bytes.iter().enumerate() {
        image[pos + i] = *b;
    }
}

const FNT: usize = 0x100;
const FAT: usize = 0x80;

/// A plain cartridge image holding:
///   root -> file "top" (id 0), directory "a"
///   a    -> directory "b"
///   b    -> file "c" (id 1)
/// FAT: id 0 -> 0x200..0x210, id 1 -> 0x220..0x228.
fn build_rom() -> Vec<u8> {
    let mut image = vec![0u8; 0x300];
    put_u32(&mut image, 0x40, FNT as u32);
    put_u32(&mut image, 0x48, FAT as u32);

    // Allocation table.
    put_u32(&mut image, FAT, 0x200);
    put_u32(&mut image, FAT + 4, 0x210);
    put_u32(&mut image, FAT + 8, 0x220);
    put_u32(&mut image, FAT + 12, 0x228);

    // Main table: root (dir 0), "a" (dir 1), "b" (dir 2).
    put_u32(&mut image, FNT, 0x18);
    put_u16(&mut image, FNT + 4, 0); // first file id of root
    put_u16(&mut image, FNT + 6, 3); // total directory count
    put_u32(&mut image, FNT + 8, 0x21);
    put_u16(&mut image, FNT + 12, 1);
    put_u16(&mut image, FNT + 14, 0);
    put_u32(&mut image, FNT + 16, 0x26);
    put_u16(&mut image, FNT + 20, 1);
    put_u16(&mut image, FNT + 22, 1);

    // Sub-table of root: file "top", subdirectory "a" (id 1), end.
    put_bytes(&mut image, FNT + 0x18, &[0x03, b't', b'o', b'p', 0x81, b'a', 0x01, 0x00, 0x00]);
    // Sub-table of "a": subdirectory "b" (id 2), end.
    put_bytes(&mut image, FNT + 0x21, &[0x81, b'b', 0x02, 0x00, 0x00]);
    // Sub-table of "b": file "c", end.
    put_bytes(&mut image, FNT + 0x26, &[0x01, b'c', 0x00]);
    image
}

/// A minimal well-formed NARC container (its chunk bodies do not hold
/// a parseable name table; only the table roots are checked).
fn build_archive() -> Vec<u8> {
    let mut image = vec![0u8; 0x40];
    put_bytes(&mut image, 0, b"NARC");
    put_bytes(&mut image, 4, &[0xFF, 0xFE]); // byte-order marker
    put_u16(&mut image, 6, 0x10); // version
    put_u32(&mut image, 8, 0x40); // total size (ignored)
    put_u16(&mut image, 12, 0x10); // header size (ignored)
    put_u16(&mut image, 14, 3); // chunk count
    put_bytes(&mut image, 16, b"BTAF");
    put_u32(&mut image, 20, 16); // chunk extent: 16..32, trailing field at 32
    put_bytes(&mut image, 36, b"BTNF");
    put_u32(&mut image, 40, 12); // chunk extent: 36..48, trailing field at 48
    put_bytes(&mut image, 52, b"GMIF");
    put_u32(&mut image, 56, 8); // chunk extent: 52..60, trailing field at 60
    image
}

#[test]
fn rom_tree_structure() {
    let fs = Filesystem::from_rom(build_rom()).unwrap();
    let root = fs.root_dir().unwrap();
    assert_eq!(root.name(), &b"root".to_vec());
    assert_eq!(root.entries().len(), 2);

    let top = root.entries()[0].file().unwrap();
    assert_eq!(top.name(), &b"top".to_vec());
    assert_eq!(top.offset(), 0x200); // image base 0 + stored start
    assert_eq!(top.len(), 0x10); // end - start

    let a = root.entries()[1].directory().unwrap();
    assert_eq!(a.name(), &b"a".to_vec());
    assert_eq!(a.entries().len(), 1);
    let b = a.entries()[0].directory().unwrap();
    assert_eq!(b.name(), &b"b".to_vec());
    let c = b.entries()[0].file().unwrap();
    assert_eq!(c.name(), &b"c".to_vec());
    assert_eq!(c.offset(), 0x220);
    assert_eq!(c.len(), 8);
}

#[test]
fn rom_two_files_get_consecutive_ids() {
    // A root with two files: ids 0 and 1 select consecutive rows.
    let mut image = build_rom();
    put_bytes(
        &mut image,
        FNT + 0x18,
        &[0x01, b'x', 0x01, b'y', 0x00, 0x00, 0x00, 0x00, 0x00],
    );
    let fs = Filesystem::from_rom(image).unwrap();
    let root = fs.root_dir().unwrap();
    assert_eq!(root.entries().len(), 2);
    let x = root.entries()[0].file().unwrap();
    let y = root.entries()[1].file().unwrap();
    assert_eq!((x.offset(), x.len()), (0x200, 0x10));
    assert_eq!((y.offset(), y.len()), (0x220, 8));
}

#[test]
fn reserved_header_byte_is_skipped() {
    // 0x80 before the first real entry produces no entry of its own.
    let mut image = build_rom();
    put_bytes(&mut image, FNT + 0x26, &[0x80, 0x01, b'c', 0x00]);
    let fs = Filesystem::from_rom(image).unwrap();
    let root = fs.root_dir().unwrap();
    let b = root.entries()[1].directory().unwrap().entries()[0].directory().unwrap();
    assert_eq!(b.entries().len(), 1);
    assert_eq!(b.entries()[0].file().unwrap().name(), &b"c".to_vec());
}

#[test]
fn traversal_order_files_then_dirs_entry_before_descendants() {
    let fs = Filesystem::from_rom(build_rom()).unwrap();
    let root = fs.root_dir().unwrap();
    let mut seen: Vec<(usize, Vec<u8>)> = Vec::new();
    let mut t = root.traverse();
    while let Some((depth, entry)) = t.next() {
        let name = match entry {
            Entry::Directory(d) => d.name().clone(),
            Entry::File(f) => f.name().clone(),
        };
        seen.push((depth, name));
    }
    assert_eq!(
        seen,
        vec![
            (0, b"top".to_vec()),
            (1, b"a".to_vec()),
            (2, b"b".to_vec()),
            (2, b"c".to_vec()),
        ]
    );
}

#[test]
fn traversal_visits_every_entry_exactly_once() {
    let fs = Filesystem::from_rom(build_rom()).unwrap();
    let root = fs.root_dir().unwrap();
    let mut names: Vec<Vec<u8>> = Vec::new();
    let mut t = root.traverse();
    while let Some((_, entry)) = t.next() {
        names.push(match entry {
            Entry::Directory(d) => d.name().clone(),
            Entry::File(f) => f.name().clone(),
        });
    }
    names.sort();
    assert_eq!(names, vec![b"a".to_vec(), b"b".to_vec(), b"c".to_vec(), b"top".to_vec()]);
}

#[test]
fn traversal_reverses_sibling_directories() {
    // Two sibling directories are expanded last-discovered first.
    let mut image = build_rom();
    // root: subdirectory "a" (id 1), subdirectory "b" (id 2), end.
    put_bytes(
        &mut image,
        FNT + 0x18,
        &[0x81, b'a', 0x01, 0x00, 0x81, b'b', 0x02, 0x00, 0x00],
    );
    // both "a" and "b" empty
    put_bytes(&mut image, FNT + 0x21, &[0x00; 5]);
    put_bytes(&mut image, FNT + 0x26, &[0x00; 3]);
    put_u32(&mut image, FNT + 16, 0x21); // "b" shares the empty sub-table
    let fs = Filesystem::from_rom(image).unwrap();
    let root = fs.root_dir().unwrap();
    let mut seen: Vec<Vec<u8>> = Vec::new();
    let mut t = root.traverse();
    while let Some((_, entry)) = t.next() {
        seen.push(entry.directory().unwrap().name().clone());
    }
    assert_eq!(seen, vec![b"b".to_vec(), b"a".to_vec()]);
}

#[test]
fn search_nested_path() {
    let fs = Filesystem::from_rom(build_rom()).unwrap();
    let root = fs.root_dir().unwrap();
    let hit = root.search(&b"a/b/c".to_vec());
    let file = hit.unwrap().file().unwrap();
    assert_eq!(file.name(), &b"c".to_vec());
    assert_eq!(file.len(), 8);
    assert!(root.search(&b"a/b/missing".to_vec()).is_none());
}

#[test]
fn search_directory_and_top_level_file() {
    let fs = Filesystem::from_rom(build_rom()).unwrap();
    let root = fs.root_dir().unwrap();
    assert!(root.search(&b"top".to_vec()).unwrap().file().is_some());
    assert!(root.search(&b"a".to_vec()).unwrap().directory().is_some());
    assert!(root.search(&b"a/b".to_vec()).unwrap().directory().is_some());
}

#[test]
fn search_empty_path_matches_nothing() {
    // The empty path is below every entry's own name: never found.
    let fs = Filesystem::from_rom(build_rom()).unwrap();
    let root = fs.root_dir().unwrap();
    assert!(root.search(&Vec::new()).is_none());
}

#[test]
fn archive_table_roots_are_chunk_starts() {
    let fs = Filesystem::from_archive(build_archive()).unwrap();
    assert_eq!(fs.alloc_table_base(), 16);
    assert_eq!(fs.name_table_base(), 36);
    assert_eq!(fs.image_base(), 52);
}

#[test]
fn archive_bad_signature_rejected() {
    let mut image = build_archive();
    put_bytes(&mut image, 0, b"CARN");
    assert_eq!(Filesystem::from_archive(image).unwrap_err(), FsError::BadSignature);
}

#[test]
fn archive_bad_version_rejected() {
    let mut image = build_archive();
    put_u16(&mut image, 6, 0x11);
    assert_eq!(Filesystem::from_archive(image).unwrap_err(), FsError::BadVersion);
}

#[test]
fn archive_bad_chunk_count_rejected() {
    let mut image = build_archive();
    put_u16(&mut image, 14, 2);
    assert_eq!(Filesystem::from_archive(image).unwrap_err(), FsError::BadChunkCount);
}

#[test]
fn archive_bad_chunk_tag_rejected() {
    let mut image = build_archive();
    put_bytes(&mut image, 16, b"FATB");
    assert_eq!(Filesystem::from_archive(image).unwrap_err(), FsError::BadChunkName);
    let mut image2 = build_archive();
    put_bytes(&mut image2, 36, b"XTNF");
    assert_eq!(Filesystem::from_archive(image2).unwrap_err(), FsError::BadChunkName);
}

#[test]
fn archive_truncated_rejected() {
    let image = build_archive();
    assert_eq!(
        Filesystem::from_archive(image[..10].to_vec()).unwrap_err(),
        FsError::Truncated
    );
}

#[test]
fn zero_header_gives_empty_directory() {
    let mut image = build_rom();
    put_bytes(&mut image, FNT + 0x18, &[0x00]);
    let fs = Filesystem::from_rom(image).unwrap();
    let root = fs.root_dir().unwrap();
    assert_eq!(root.name(), &b"root".to_vec());
    assert_eq!(root.entries().len(), 0);
}

#[test]
fn truncated_rom_rejected() {
    assert_eq!(Filesystem::from_rom(vec![0u8; 0x20]).unwrap_err(), FsError::Truncated);
    // Header fields present but the tables point past the end.
    let mut image = vec![0u8; 0x50];
    put_u32(&mut image, 0x40, 0x1000);
    put_u32(&mut image, 0x48, 0x2000);
    let fs = Filesystem::from_rom(image).unwrap();
    assert_eq!(fs.root_dir().unwrap_err(), FsError::Truncated);
}

#[test]
fn bad_file_range_rejected() {
    // End offset below start offset in the allocation table.
    let mut image = build_rom();
    put_u32(&mut image, FAT, 0x210);
    put_u32(&mut image, FAT + 4, 0x200);
    let fs = Filesystem::from_rom(image).unwrap();
    assert_eq!(fs.root_dir().unwrap_err(), FsError::BadFileRange);
}

#[test]
fn cyclic_table_reports_too_deep() {
    // Directory "a" lists itself as a subdirectory: the name table is
    // cyclic and the parse stops with `TooDeep` once the greatest
    // possible nesting is exceeded.
    let mut image = build_rom();
    put_bytes(&mut image, FNT + 0x21, &[0x81, b'a', 0x01, 0x00, 0x00]);
    let fs = Filesystem::from_rom(image).unwrap();
    assert_eq!(fs.root_dir().unwrap_err(), FsError::TooDeep);
}

#[test]
fn non_utf8_name_rejected() {
    // A single 0xFF name byte is not valid UTF-8 in any position.
    let mut image = build_rom();
    put_bytes(&mut image, FNT + 0x26, &[0x01, 0xFF, 0x00]);
    let fs = Filesystem::from_rom(image).unwrap();
    assert_eq!(fs.root_dir().unwrap_err(), FsError::BadEncoding);
    // A bare continuation byte and a truncated two-byte scalar fail too.
    let mut image2 = build_rom();
    put_bytes(&mut image2, FNT + 0x26, &[0x02, 0xC3, 0x28, 0x00]);
    let fs2 = Filesystem::from_rom(image2).unwrap();
    assert_eq!(fs2.root_dir().unwrap_err(), FsError::BadEncoding);
}

#[test]
fn multi_byte_utf8_name_accepted() {
    // A two-byte scalar (U+00E9) is a valid name.
    let mut image = build_rom();
    put_bytes(&mut image, FNT + 0x26, &[0x02, 0xC3, 0xA9, 0x00]);
    let fs = Filesystem::from_rom(image).unwrap();
    let root = fs.root_dir().unwrap();
    let b = root.entries()[1].directory().unwrap().entries()[0].directory().unwrap();
    let f = b.entries()[0].file().unwrap();
    assert_eq!(f.name(), &vec![0xC3u8, 0xA9]);
    assert_eq!(String::from_utf8(f.name().clone()).unwrap(), "\u{e9}");
}
