use fff_index::error::{Error, LayerFormatError};
use fff_index::file_picker::picker::FilePicker;
use fff_index::file_picker::restore::FrecencyScores;
use fff_index::index::codec::{LayerSnapshot, SnapshotLayout};
use fff_index::index::layers::{MAX_OVERLAY_LAYERS, SESSION_LAYER};
use fff_index::index::snapshot::{IndexEntry, LayerBuilder};

fn snapshot(label: Option<&str>, paths: &[String]) -> LayerSnapshot {
    let mut builder = LayerBuilder::new(label);
    for p in paths {
        assert!(builder.push(&IndexEntry::new(p).with_metadata(10, 1_700_000_000)));
    }
    builder.finish()
}

fn names(paths: &[&str]) -> Vec<String> {
    paths.iter().map(|p| p.to_string()).collect()
}

fn picker(paths: &[&str]) -> FilePicker {
    let mut picker = FilePicker::new();
    picker
        .import_base(snapshot(None, &names(paths)), None)
        .unwrap_or_else(|_| panic!("busy"));
    picker
}

fn add(picker: &mut FilePicker, paths: &[String]) -> usize {
    let entries: Vec<IndexEntry<'_>> = paths.iter().map(|p| IndexEntry::new(p)).collect();
    match picker.add_entries(&entries) {
        Ok(added) => added,
        Err(_) => panic!("busy"),
    }
}

fn layer_paths(picker: &FilePicker, layer: u8) -> Vec<String> {
    let sync = &picker.sync_data;
    let total = sync.files.len();
    let (start, end) = if layer == 0 {
        (0, sync.base_count)
    } else {
        match sync.layers.file_range(layer, total) {
            Some(range) => range,
            None => return Vec::new(),
        }
    };
    (start..end)
        .filter(|&i| !sync.files.items[i].is_deleted())
        .map(|i| String::from_utf8_lossy(&sync.read_file(i)).into_owned())
        .collect()
}

fn live_paths(picker: &FilePicker) -> Vec<String> {
    let mut paths = Vec::new();
    for layer in 0..=picker.current_layer() {
        paths.extend(layer_paths(picker, layer));
    }
    paths.sort();
    paths
}

#[test]
fn export_base_before_scan_is_none_and_unknown_layer_fails() {
    let picker = FilePicker::new();

    assert!(picker.export_layer(0).is_none());
    let mut out = Vec::new();
    assert!(picker.save_layer(42, &mut out).is_err());
    assert_eq!(
        picker.save_layer(42, &mut out).err(),
        Some(Error::LayerFormat(LayerFormatError::NoSuchLayer))
    );
    assert!(out.is_empty());
}

#[test]
fn added_entries_skip_what_is_there() {
    let mut picker = picker(&["scanned.rs"]);
    let added = add(
        &mut picker,
        &names(&[
            "virtual/one.rs",
            "virtual/two.rs",
            "scanned.rs",
            "virtual/one.rs",
        ]),
    );
    assert_eq!(added, 2);
    assert_eq!(
        layer_paths(&picker, SESSION_LAYER),
        ["virtual/one.rs", "virtual/two.rs"]
    );
    let dirs: Vec<String> = (0..picker.sync_data.dirs.len())
        .map(|i| String::from_utf8_lossy(&picker.sync_data.read_dir(i)).into_owned())
        .collect();
    assert!(dirs.contains(&"virtual/".to_string()));

    // A second batch on the same open layer dedups against the first one.
    let added = add(&mut picker, &names(&["virtual/two.rs", "virtual/three.rs"]));
    assert_eq!(added, 1);
    assert_eq!(layer_paths(&picker, SESSION_LAYER).len(), 3);
}

#[test]
fn adding_again_adds_nothing() {
    let mut picker = picker(&["scanned.rs"]);
    let paths = names(&["virtual/one.rs", "virtual/two.rs"]);
    assert_eq!(add(&mut picker, &paths), 2);
    let before = live_paths(&picker);
    assert_eq!(add(&mut picker, &paths), 0);
    assert_eq!(live_paths(&picker), before);
}

#[test]
fn added_entries_outgrow_the_reserve() {
    let mut picker = picker(&["scanned.rs"]);
    let paths: Vec<String> = (0..5000)
        .map(|i| format!("gen/d{}/f{i}.rs", i % 37))
        .collect();
    assert_eq!(add(&mut picker, &paths), paths.len());
    assert_eq!(live_paths(&picker).len(), paths.len() + 1);
    let total = picker.sync_data.files.len();
    let place = picker
        .sync_data
        .lookup_relative_path(b"gen/d4/f4999.rs", total);
    assert_eq!(
        place.map(|i| picker.sync_data.read_file(i)),
        Some(b"gen/d4/f4999.rs".to_vec())
    );
}

#[test]
fn a_busy_index_does_not_grow() {
    let mut picker = picker(&["scanned.rs"]);
    picker.post_scan_indexing_active = true;
    let paths: Vec<String> = (0..5000).map(|i| format!("f{i}.rs")).collect();
    let entries: Vec<IndexEntry<'_>> = paths.iter().map(|p| IndexEntry::new(p)).collect();
    assert_eq!(picker.add_entries(&entries).err(), Some(Error::IndexBusy));
    assert_eq!(
        picker
            .import_base(snapshot(None, &names(&["x.rs"])), None)
            .err(),
        Some(Error::IndexBusy)
    );
    assert_eq!(live_paths(&picker), ["scanned.rs"]);
    assert_eq!(picker.add_entries(&entries[..2]).ok(), Some(2));
}

#[test]
fn imported_layers_are_sealed_and_sorted() {
    let paths: Vec<String> = (0..3000)
        .map(|i| format!("out/pkg{}/mod{i}.ts", i % 11))
        .collect();
    let snap = snapshot(Some("generated"), &paths);
    assert_eq!(snap.layout(), SnapshotLayout::Sorted);
    assert_eq!(snap.file_count(), 3000);

    let mut picker = picker(&["scanned.rs"]);
    let layer = picker
        .import_layer(snap)
        .unwrap_or_else(|_| panic!("busy"));
    assert_eq!(layer, SESSION_LAYER + 1);
    assert_eq!(layer_paths(&picker, layer).len(), 3000);
    assert_eq!(picker.layers()[1].label.as_deref(), Some("generated"));
    assert_eq!(picker.current_layer(), layer);
    let total = picker.sync_data.files.len();
    assert!(picker
        .sync_data
        .lookup_relative_path(b"out/pkg7/mod2999.ts", total)
        .is_some());

    // A new file never reopens the sealed import.
    assert_eq!(add(&mut picker, &names(&["out/pkg0/new.ts"])), 1);
    assert_eq!(picker.current_layer(), layer + 1);
    assert_eq!(layer_paths(&picker, layer).len(), 3000);
    assert_eq!(layer_paths(&picker, layer + 1), ["out/pkg0/new.ts"]);
    let open: Vec<bool> = picker.layers().iter().map(|l| l.is_open).collect();
    assert_eq!(open, [false, false, true]);
}

#[test]
fn entries_revive_deleted_files() {
    let mut picker = picker(&["scanned.rs"]);
    assert_eq!(add(&mut picker, &names(&["virtual/gone.rs"])), 1);
    let row = picker.sync_data.files.len() - 1;
    picker.sync_data.files.items[row].set_deleted(true);
    picker.sync_data.live_count -= 1;
    assert!(layer_paths(&picker, SESSION_LAYER).is_empty());
    assert_eq!(add(&mut picker, &names(&["virtual/gone.rs"])), 1);
    assert_eq!(layer_paths(&picker, SESSION_LAYER), ["virtual/gone.rs"]);
    assert_eq!(picker.files_in_layer(SESSION_LAYER).len(), 1);
}

#[test]
fn saved_layers_load_again() {
    let mut picker = picker(&["scanned.rs"]);
    picker.create_layer(Some("persisted"));
    let mut paths: Vec<String> = (0..500)
        .map(|i| format!("cache/{}/x{i}.js", i % 5))
        .collect();
    assert_eq!(add(&mut picker, &paths), 500);
    let layer = picker.current_layer();

    let mut bytes = Vec::new();
    let written = picker
        .save_layer(layer, &mut bytes)
        .unwrap_or_else(|_| panic!("missing"));
    assert_eq!(written as usize, bytes.len());

    let loaded = LayerSnapshot::from_bytes(&bytes).unwrap_or_else(|_| panic!("refused"));
    assert_eq!(loaded.label(), Some("persisted"));
    assert_eq!(loaded.file_count(), 500);
    let mut loaded_paths = loaded.relative_paths();
    loaded_paths.sort();
    paths.sort();
    assert_eq!(loaded_paths, paths);

    let mut fresh = self::picker(&["scanned.rs"]);
    let id = fresh
        .import_layer(loaded)
        .unwrap_or_else(|_| panic!("busy"));
    assert_eq!(layer_paths(&fresh, id).len(), 500);
}

#[test]
fn the_base_survives_an_export() {
    let mut paths: Vec<String> = (0..200)
        .map(|i| format!("src/m{}/file{i}.rs", i % 7))
        .collect();
    paths.push("logo.png".to_string());
    let scanned = {
        let mut p = FilePicker::new();
        p.import_base(snapshot(None, &paths), None)
            .unwrap_or_else(|_| panic!("busy"));
        p
    };
    let exported = scanned.export_layer(0).unwrap_or_else(|| panic!("no base"));
    assert_eq!(exported.layout(), SnapshotLayout::BasePartitioned);
    assert_eq!(exported.file_count(), 201);
    let mut bytes = Vec::new();
    exported.write_to(&mut bytes);
    let loaded = LayerSnapshot::from_bytes(&bytes).unwrap_or_else(|_| panic!("refused"));

    let mut restored = FilePicker::new();
    restored
        .import_base(loaded, None)
        .unwrap_or_else(|_| panic!("busy"));
    assert_eq!(live_paths(&restored), live_paths(&scanned));
    let total = restored.sync_data.files.len();
    let png = restored
        .sync_data
        .lookup_relative_path(b"logo.png", total)
        .unwrap_or_else(|| panic!("no png"));
    assert!(restored.sync_data.files.items[png].is_binary());
    assert_eq!(restored.dirs_in_layer(0).len(), 9);

    assert_eq!(add(&mut restored, &names(&["src/m0/new.rs"])), 1);
    assert_eq!(layer_paths(&restored, SESSION_LAYER), ["src/m0/new.rs"]);
}

#[test]
fn explicit_layers_outlive_the_base() {
    let mut picker = picker(&["scanned.rs"]);
    assert_eq!(add(&mut picker, &names(&["session_only.rs"])), 1);
    picker.create_layer(Some("kept"));
    assert_eq!(
        add(&mut picker, &names(&["virtual/kept.rs", "scanned.rs"])),
        1
    );
    picker
        .import_base(
            snapshot(None, &names(&["scanned.rs", "added_on_disk.rs"])),
            None,
        )
        .unwrap_or_else(|_| panic!("busy"));

    let layers = picker.layers();
    let kept = layers
        .iter()
        .find(|l| l.label.as_deref() == Some("kept"))
        .map(|l| l.id)
        .unwrap_or_else(|| panic!("lost"));
    assert_eq!(layer_paths(&picker, kept), ["virtual/kept.rs"]);
    assert_eq!(
        live_paths(&picker),
        ["added_on_disk.rs", "scanned.rs", "virtual/kept.rs"]
    );
}

#[test]
fn each_layer_owns_what_was_added_to_it() {
    let mut picker = picker(&["scanned.rs"]);
    assert_eq!(picker.current_layer(), SESSION_LAYER);
    add(&mut picker, &names(&["one.rs"]));
    let second = picker.create_layer(Some("second"));
    assert_eq!(second, SESSION_LAYER + 1);
    add(&mut picker, &names(&["two.rs"]));
    let third = picker.create_layer(None);
    add(&mut picker, &names(&["three.rs"]));

    assert_eq!(layer_paths(&picker, 0), ["scanned.rs"]);
    assert_eq!(layer_paths(&picker, SESSION_LAYER), ["one.rs"]);
    assert_eq!(layer_paths(&picker, second), ["two.rs"]);
    assert_eq!(layer_paths(&picker, third), ["three.rs"]);
    assert_eq!(picker.current_layer(), third);
    let layers = picker.layers();
    assert_eq!(layers.len(), 3);
    assert_eq!(layers[0].label.as_deref(), Some("session"));
    assert_eq!(layers[1].label.as_deref(), Some("second"));
    assert!(layers[2].is_open);
    assert!(layers.iter().all(|l| l.live_file_count == 1));
}

#[test]
fn too_many_layers_are_merged_without_losing_files() {
    let mut picker = picker(&["alpha_scanned.rs"]);
    let total = MAX_OVERLAY_LAYERS + 3;
    for i in 0..total {
        add(&mut picker, &[format!("dir{i}/alpha_{i}.rs")]);
        if i + 1 < total {
            picker.create_layer(None);
        }
    }
    assert!(picker.layers().len() <= MAX_OVERLAY_LAYERS);
    assert_eq!(layer_paths(&picker, SESSION_LAYER), ["dir0/alpha_0.rs"]);
    let found = live_paths(&picker);
    for i in 0..total {
        assert!(found.contains(&format!("dir{i}/alpha_{i}.rs")));
    }
    let dirs: Vec<String> = (0..picker.sync_data.dirs.len())
        .map(|i| String::from_utf8_lossy(&picker.sync_data.read_dir(i)).into_owned())
        .collect();
    for i in 0..total {
        assert!(dirs.contains(&format!("dir{i}/")));
    }
    let ids: Vec<u8> = picker.layers().iter().map(|l| l.id).collect();
    assert_eq!(ids, (1..=ids.len() as u8).collect::<Vec<u8>>());
    assert_eq!(picker.current_layer() as usize, ids.len());
}

#[test]
fn frecency_is_taken_over_with_the_base() {
    let mut picker = FilePicker::new();
    let scores = vec![
        Some(FrecencyScores {
            access: 7,
            modification: 3,
        }),
        None,
    ];
    picker
        .import_base(snapshot(None, &names(&["a/x.rs", "b/y.rs"])), Some(&scores))
        .unwrap_or_else(|_| panic!("busy"));
    let files = picker.files_in_layer(0);
    assert_eq!(files[0].total_frecency_score(), 10);
    assert_eq!(files[1].total_frecency_score(), 0);
    let frecent: Vec<i32> = picker
        .dirs_in_layer(0)
        .iter()
        .map(|d| d.max_access_frecency())
        .collect();
    assert!(frecent.contains(&7));
}
