use fff_index::index::layers::{
    count_live, LayerArenas, LayerStack, MAX_INDEX_LAYERS, MAX_OVERLAY_LAYERS, SESSION_LAYER, SESSION_LAYER_LABEL,
};
use fff_index::file_picker::sync::FileSlots;
use fff_index::index::path_index::{scan, PathIndex};
use fff_index::simd_path::{ArenaPtr, ChunkedPathStore, ChunkedPathStoreBuilder};
use fff_index::types::FileItem;

fn add(stack: &mut LayerStack, path: &str) {
    stack.top_builder().add_dir_immediate(path);
}

fn base_store() -> ChunkedPathStore {
    let mut builder = ChunkedPathStoreBuilder::new(16);
    builder.add_dir_immediate("base/");
    builder.finish()
}

fn same_arena(a: ArenaPtr<'_>, b: ArenaPtr<'_>) -> bool {
    match (a.store, b.store) {
        (Some(a), Some(b)) => std::ptr::eq(a, b),
        (None, None) => true,
        _ => false,
    }
}

#[test]
fn starts_with_the_session_layer_open() {
    let stack = LayerStack::new(10, 3);

    assert_eq!(stack.top_id(), SESSION_LAYER);
    assert!(!stack.is_full());
    assert_eq!(stack.overlay_arena_bytes(), 0);
}

#[test]
fn untouched_layer_allocates_no_arena() {
    let mut stack = LayerStack::new(0, 0);
    stack.seal_top();
    stack.open_new(None, 0, 0);

    assert_eq!(stack.overlay_arena_bytes(), 0);
    // The open top layer has no arena until a path lands in it.
    assert!(stack.top_arena().is_null());
}

#[test]
fn sealing_keeps_the_arena_addressable() {
    let mut stack = LayerStack::new(0, 0);
    add(&mut stack, "src/");
    let bytes_open = stack.overlay_arena_bytes();

    stack.seal_top();

    assert!(bytes_open > 0);
    assert_eq!(stack.overlay_arena_bytes(), bytes_open);
    assert!(!stack.arenas(ArenaPtr::null()).get(1).is_null());
}

#[test]
fn arenas_are_distinct_per_layer() {
    let mut stack = LayerStack::new(0, 0);
    add(&mut stack, "src/");
    stack.seal_top();
    stack.open_new(Some("second"), 4, 2);
    add(&mut stack, "docs/");

    let base = base_store();
    let arenas = stack.arenas(ArenaPtr::new(&base));
    assert!(same_arena(arenas.base(), ArenaPtr::new(&base)));
    assert!(!same_arena(arenas.get(1), arenas.get(2)));
    assert_eq!(stack.top_id(), 2);
}

#[test]
fn file_ranges_close_the_open_layer_at_the_current_length() {
    let mut stack = LayerStack::new(100, 10);
    stack.seal_top();
    stack.open_new(None, 104, 11);

    let ranges = stack.file_ranges(110);
    let ranges = ranges.as_slice();
    assert_eq!(ranges.len(), 2);
    assert_eq!((ranges[0].0, ranges[0].1, ranges[0].2), (100, 104, 1));
    assert_eq!((ranges[1].0, ranges[1].1, ranges[1].2), (104, 110, 2));
}

#[test]
fn ranges_stay_in_bounds_when_the_index_is_shorter_than_a_layer_start() {
    let mut stack = LayerStack::new(100, 10);
    stack.seal_top();
    stack.open_new(None, 104, 11);

    // A rescan can shrink the index below a recorded layer start.
    let ranges = stack.file_ranges(100);
    assert!(ranges
        .as_slice()
        .iter()
        .all(|&(start, end, ..)| start <= end && end <= 100));
    assert_eq!(stack.file_range(2, 100), Some((100, 100)));
}

#[test]
fn fills_up_after_max_overlay_layers() {
    let mut stack = LayerStack::new(0, 0);
    for _ in 1..MAX_OVERLAY_LAYERS {
        stack.seal_top();
        stack.open_new(None, 0, 0);
    }

    assert!(stack.is_full());
    assert_eq!(stack.top_id() as usize, MAX_OVERLAY_LAYERS);
}

#[test]
fn merge_candidate_never_picks_the_session_layer() {
    let mut stack = LayerStack::new(0, 0);
    while !stack.is_full() {
        stack.seal_top();
        stack.open_new(None, 0, 0);
    }

    assert_eq!(stack.merge_candidate(), MAX_OVERLAY_LAYERS - 2);
    assert!(stack.merge_candidate() >= 1);
}

#[test]
fn merge_at_collapses_two_layers_into_one() {
    let mut stack = LayerStack::new(0, 0);
    stack.seal_top();
    stack.open_new(Some("second"), 5, 1);
    stack.seal_top();
    stack.open_new(Some("third"), 9, 2);
    stack.seal_top();

    stack.merge_at(1, ChunkedPathStore::empty());

    assert_eq!(stack.top_id(), 2);
    let ranges = stack.file_ranges(12);
    let ranges = ranges.as_slice();
    assert_eq!(ranges.len(), 2);
    // The merged layer inherits the older layer's start and label.
    assert_eq!((ranges[1].0, ranges[1].1), (5, 12));
    assert_eq!(stack.label(2).as_deref(), Some("second"));
}

#[test]
fn unknown_layer_ids_have_no_range() {
    let stack = LayerStack::new(0, 0);

    assert_eq!(stack.file_range(0, 10), None);
    assert_eq!(stack.dir_range(0, 10), None);
    assert_eq!(stack.file_range(7, 10), None);
}

#[test]
fn arena_lookup_is_bounded_for_out_of_range_ids() {
    let base = base_store();
    let arenas = LayerArenas::uniform(ArenaPtr::new(&base));

    // Layer id comes from three flag bits, so ids up to 7 must not panic.
    for layer in 0..=7u8 {
        assert!(same_arena(arenas.get(layer), ArenaPtr::new(&base)));
    }
}

#[test]
fn layer_limits_leave_room_for_the_base() {
    assert_eq!(MAX_OVERLAY_LAYERS + 1, MAX_INDEX_LAYERS);
}

#[test]
fn sealed_layers_keep_their_label_and_order() {
    let mut stack = LayerStack::new(2, 1);
    assert_eq!(stack.label(1).as_deref(), Some(SESSION_LAYER_LABEL));
    assert!(stack.top_is_open());
    stack.seal_top();
    assert!(!stack.top_is_open());
    stack.push_sealed(Some("loaded".to_string()), base_store(), 5, 2);
    stack.set_sorted(2, true);
    assert_eq!(stack.top_id(), 2);
    assert_eq!(stack.label(2).as_deref(), Some("loaded"));
    assert!(stack.is_sorted(2));
    stack.set_sorted(2, false);
    assert!(!stack.is_sorted(2));
    assert_eq!(stack.dir_range(1, 9), Some((1, 2)));
    assert_eq!(stack.dir_range(2, 9), Some((2, 9)));
    assert!(stack.store_snapshot(2).is_some());
    assert!(stack.store_snapshot(3).is_none());
    let ranges = stack.lookup_ranges(8);
    assert_eq!(ranges.len(), 2);
    assert_eq!((ranges[0].0, ranges[0].1), (2, 5));
    assert_eq!((ranges[1].0, ranges[1].1, ranges[1].3), (5, 8, false));
}

#[test]
fn info_counts_live_rows_per_layer() {
    let mut stack = LayerStack::new(1, 0);
    add(&mut stack, "src/");
    let mut files: Vec<FileItem> = Vec::new();
    for i in 0..4u64 {
        files.push(FileItem::new_raw(0, i, 0, false, false));
    }
    files[2].set_deleted(true);
    let info = stack.info(&files, 2);
    assert_eq!(info.len(), 1);
    assert_eq!(info[0].id, SESSION_LAYER);
    assert_eq!(info[0].file_count, 3);
    assert_eq!(info[0].live_file_count, 2);
    assert_eq!(info[0].dir_count, 2);
    assert!(info[0].is_open);
    assert_eq!(info[0].arena_bytes, stack.overlay_arena_bytes());
    assert_eq!(info[0].clone().label, info[0].label);
    assert_eq!(count_live(&files, 1, 4), 2);
    assert_eq!(count_live(&files, 2, 3), 0);
}

#[test]
fn lookups_find_the_lowest_slot() {
    let mut builder = ChunkedPathStoreBuilder::new(64);
    let files: Vec<FileItem> = (0..60)
        .map(|i| {
            let path = if i % 20 == 5 {
                "twice.rs".to_string()
            } else {
                format!("f{i}.rs")
            };
            let mut file = FileItem::new_raw(0, 0, 0, false, false);
            file.set_path(builder.add_file_immediate(&path, 0));
            file
        })
        .collect();
    let layers = LayerStack::new(files.len(), 0);
    let base = Some(builder.finish());
    let slots = FileSlots {
        files: &files,
        layers: &layers,
        base: &base,
    };
    let mut index = PathIndex::new();
    assert_eq!(index.lookup(&slots, 0, 60, b"twice.rs"), Some(5));
    assert_eq!(index.lookup(&slots, 0, 60, b"f59.rs"), Some(59));
    assert_eq!(index.lookup(&slots, 0, 60, b"other.rs"), None);
    // Another range, and one that is too short to be indexed.
    assert_eq!(index.lookup(&slots, 6, 60, b"twice.rs"), Some(25));
    assert_eq!(index.lookup(&slots, 26, 50, b"twice.rs"), Some(45));
    index.reset();
    assert_eq!(index.lookup(&slots, 0, 60, b"twice.rs"), Some(5));
    assert_eq!(scan(&slots, 6, 60, b"twice.rs"), Some(25));
}

#[test]
fn copies_outlive_writes() {
    let mut stack = LayerStack::new(0, 0);
    add(&mut stack, "first/");
    let copy = stack.store_snapshot(1);
    let again = stack.store_snapshot(1);
    let indices = |store: &Option<ChunkedPathStore>| store.as_ref().map(|s| s.indices.clone());
    assert_eq!(indices(&copy), indices(&again));
    add(&mut stack, "second/and/more/");
    assert_eq!(indices(&copy), indices(&again));
    assert_ne!(indices(&copy), indices(&stack.store_snapshot(1)));
}
