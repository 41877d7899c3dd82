use fff_index::error::{Error, LayerFormatError};
use fff_index::index::codec::{LayerSnapshot, SnapshotLayout};
use fff_index::index::listing::{entries_of, list_paths, to_canonical_slashes, NotUtf8};
use fff_index::index::snapshot::{IndexEntry, LayerBuilder};
use fff_index::simd_path::SIMD_CHUNK_BYTES;

const HEADER_BYTES: usize = 32;

fn snapshot(paths: &[&str]) -> LayerSnapshot {
    let mut builder = LayerBuilder::new(Some("test"));
    for (i, p) in paths.iter().enumerate() {
        assert!(builder
            .push(&IndexEntry::new(p).with_metadata(i as u64 * 10, 1_700_000_000 + i as u64)));
    }
    builder.finish()
}

fn failure(bytes: &[u8]) -> LayerFormatError {
    match LayerSnapshot::from_bytes(bytes) {
        Err(Error::LayerFormat(e)) => e,
        _ => panic!("accepted"),
    }
}

#[test]
fn builder_sorts_dedups_and_derives_ancestor_dirs() {
    let snap = snapshot(&[
        "src/b/y.rs",
        "src/a.rs",
        "root.txt",
        "src/b/y.rs",
        "src/b/c/z.rs",
    ]);
    let paths: Vec<String> = snap.relative_paths();
    assert_eq!(
        paths,
        ["root.txt", "src/a.rs", "src/b/y.rs", "src/b/c/z.rs"]
    );

    let dirs: Vec<String> = snap.dir_paths();
    assert_eq!(dirs, ["", "src/", "src/b/", "src/b/c/"]);

    for file in &snap.files {
        let dir = snap.dirs[file.parent_dir_index as usize].relative_path(&snap.store);
        let path = file.relative_path(&snap.store);
        assert_eq!(&path[..file.path.filename_offset as usize], dir);
    }
}

#[test]
fn builder_rejects_absolute_and_empty_paths() {
    let mut builder = LayerBuilder::new(None);
    assert!(!builder.push(&IndexEntry::new("/etc/passwd")));
    assert!(!builder.push(&IndexEntry::new("")));
    assert!(!builder.push(&IndexEntry::new("dir/")));
    assert!(builder.push(&IndexEntry::new("./ok.rs")));
    assert_eq!(builder.len(), 1);
}

#[test]
fn snapshot_round_trips_through_bytes() {
    let snap = snapshot(&["src/main.rs", "src/lib.rs", "assets/logo.png", "README.md"]);
    let mut bytes = Vec::new();
    let written = snap.write_to(&mut bytes);
    assert_eq!(written as usize, bytes.len());

    let back = LayerSnapshot::from_bytes(&bytes).unwrap_or_else(|_| panic!("refused"));
    assert_eq!(back.label(), Some("test"));
    assert_eq!(back.layout(), SnapshotLayout::Sorted);
    assert_eq!(back.relative_paths(), snap.relative_paths());
    assert_eq!(back.dir_paths(), snap.dir_paths());
    assert_eq!(back.arena_bytes(), snap.arena_bytes());

    for (a, b) in back.files.iter().zip(&snap.files) {
        assert_eq!(a.size, b.size);
        assert_eq!(a.modified, b.modified);
        assert_eq!(a.is_binary(), b.is_binary());
        assert_eq!(a.parent_dir_index, b.parent_dir_index);
    }
    assert!(
        back.files.iter().any(|f| f.is_binary()),
        "png is binary by extension"
    );
}

#[test]
fn corrupt_bytes_are_rejected_not_panicked() {
    let snap = snapshot(&["a/b.rs", "c.rs"]);
    let mut bytes = Vec::new();
    snap.write_to(&mut bytes);

    assert!(LayerSnapshot::from_bytes(&bytes[..bytes.len() - 3]).is_err());
    assert!(LayerSnapshot::from_bytes(b"nope").is_err());

    let mut bad = bytes.clone();
    bad[8] = 99;
    assert!(LayerSnapshot::from_bytes(&bad).is_err());

    // Point the first chunk index past the arena.
    let arena_start = HEADER_BYTES + "test".len().next_multiple_of(SIMD_CHUNK_BYTES);
    let indices_start = arena_start + snap.store.chunks().len() * SIMD_CHUNK_BYTES;
    let mut bad = bytes.clone();
    bad[indices_start..indices_start + 4].copy_from_slice(&u32::MAX.to_le_bytes());
    assert!(LayerSnapshot::from_bytes(&bad).is_err());

    // Point a path's index run past the index table.
    let mut bad = bytes.clone();
    let offset_pos = bytes.len() - 6;
    bad[offset_pos..offset_pos + 4].copy_from_slice(&u32::MAX.to_le_bytes());
    assert!(LayerSnapshot::from_bytes(&bad).is_err());

    // Huge counts in the header must not allocate before failing.
    let mut bad = bytes.clone();
    bad[16..20].copy_from_slice(&u32::MAX.to_le_bytes());
    assert!(LayerSnapshot::from_bytes(&bad).is_err());
    let mut bad = bytes.clone();
    bad[24..28].copy_from_slice(&u32::MAX.to_le_bytes());
    assert!(LayerSnapshot::from_bytes(&bad).is_err());

    // Arena bytes that are not UTF-8.
    let mut bad = bytes.clone();
    bad[arena_start] = 0xff;
    assert!(LayerSnapshot::from_bytes(&bad).is_err());
}

#[test]
fn filename_offset_inside_a_char_is_rejected() {
    let snap = snapshot(&["é/x.rs"]);
    let mut bytes = Vec::new();
    snap.write_to(&mut bytes);

    // The file record ends the buffer; its filename_offset sits right
    // after size + modified + binary.
    let record_len = 8 + 8 + 1 + 2 + 4 + 4 + 2;
    let offset_pos = bytes.len() - record_len + 17;
    assert_eq!(
        u16::from_le_bytes([bytes[offset_pos], bytes[offset_pos + 1]]),
        3
    );
    bytes[offset_pos] = 1;
    assert!(LayerSnapshot::from_bytes(&bytes).is_err());
    assert_eq!(failure(&bytes), LayerFormatError::FilenameOffsetSplitsChar);
}

#[test]
fn each_kind_of_damage_has_its_error() {
    let snap = snapshot(&["a/b.rs", "c.rs"]);
    let mut bytes = Vec::new();
    snap.write_to(&mut bytes);

    assert_eq!(failure(&bytes[..10]), LayerFormatError::Truncated);
    assert_eq!(failure(&bytes[..bytes.len() - 3]), LayerFormatError::Truncated);
    let mut bad = bytes.clone();
    bad[0] ^= 1;
    assert_eq!(failure(&bad), LayerFormatError::BadMagic);
    let mut bad = bytes.clone();
    bad[8] = 99;
    assert_eq!(failure(&bad), LayerFormatError::UnsupportedVersion);
    let mut bad = bytes.clone();
    bad[12] = 9;
    assert_eq!(failure(&bad), LayerFormatError::BadLayout);
    let mut bad = bytes.clone();
    bad[HEADER_BYTES] = 0xff;
    assert_eq!(failure(&bad), LayerFormatError::LabelNotUtf8);
    let arena_start = HEADER_BYTES + SIMD_CHUNK_BYTES;
    let indices_start = arena_start + snap.store.chunks().len() * SIMD_CHUNK_BYTES;
    let mut bad = bytes.clone();
    bad[indices_start..indices_start + 4].copy_from_slice(&u32::MAX.to_le_bytes());
    assert_eq!(failure(&bad), LayerFormatError::ChunkIndexOutOfRange);
    let mut bad = bytes.clone();
    bad[arena_start] = 0xff;
    assert_eq!(failure(&bad), LayerFormatError::PathNotUtf8);
    let record = bytes.len() - 29;
    let mut bad = bytes.clone();
    bad[record + 19..record + 23].copy_from_slice(&7u32.to_le_bytes());
    assert_eq!(failure(&bad), LayerFormatError::ParentDirOutOfRange);
    let mut bad = bytes.clone();
    bad[record + 23..record + 27].copy_from_slice(&u32::MAX.to_le_bytes());
    assert_eq!(failure(&bad), LayerFormatError::InconsistentPathRecord);
    assert_eq!(LayerFormatError::BadMagic.message(), "bad magic");
    assert_eq!(LayerFormatError::PathNotUtf8.message(), "path is not utf-8");
}

#[test]
fn builder_keeps_the_first_of_equal_paths() {
    let mut builder = LayerBuilder::with_capacity(Some("dup"), 4);
    assert!(builder.push(&IndexEntry::new("x/a.rs").with_metadata(1, 10)));
    assert!(builder.push(&IndexEntry::new("x/a.rs").with_metadata(2, 20)));
    assert!(builder.push(&IndexEntry::new("x/b.bin").with_binary(true)));
    assert!(!builder.is_empty());
    let snap = builder.finish();
    assert_eq!(snap.file_count(), 2);
    assert_eq!(snap.dir_count(), 2);
    assert_eq!(snap.files[0].size, 1);
    assert!(snap.files[1].is_binary());
    assert_eq!(snap.label(), Some("dup"));
}

#[test]
fn listed_paths_keep_their_metadata_across_blank_lines() {
    let sizes = [1u64, 2, 3];
    let listed = list_paths("a.rs\n\nsrc/é.rs\nlast".as_bytes(), Some(&sizes), None)
        .unwrap_or_else(|_| panic!("refused"));
    let seen: Vec<(&str, u64, u64)> = listed
        .iter()
        .map(|l| (l.path.as_str(), l.size, l.modified))
        .collect();
    assert_eq!(seen, [("a.rs", 1, 0), ("src/é.rs", 3, 0), ("last", 0, 0)]);
    let entries = entries_of(&listed);
    assert_eq!(entries.len(), 3);
    assert_eq!(entries[1].relative_path, "src/é.rs");
    assert_eq!(entries[1].size, 3);
    assert!(entries[1].binary.is_none());
}

#[test]
fn listed_paths_must_be_utf8() {
    assert_eq!(list_paths(&[b'a', 0xff], None, None).err(), Some(NotUtf8));
    assert_eq!(list_paths(b"", None, None).map(|l| l.len()).ok(), Some(0));
    assert_eq!(list_paths(b"\n\n", None, None).map(|l| l.len()).ok(), Some(0));
}

#[test]
fn the_platform_separator_becomes_a_slash() {
    assert_eq!(to_canonical_slashes(b"src\\a\\b.rs", b'\\'), b"src/a/b.rs");
    assert_eq!(to_canonical_slashes(b"src\\a/b.rs", b'/'), b"src\\a/b.rs");
    assert!(to_canonical_slashes(b"", b'\\').is_empty());
}
