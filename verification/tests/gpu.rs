use fff_index::gpu::index::{
    after_append, bump_boost_gen, enabled, index_reserve, plan_refresh, refreshed, status, Files,
    GpuStatus, IndexState, Refresh,
};
use fff_index::gpu::matcher::{Kernel, Reserve, ReserveExhausted, Scoring, Tables};
use fff_index::gpu::pack::{can_pack, grid, pack_paths, pack_paths_soa, pack_paths_tight};
use fff_index::gpu::readback::{
    finish_selection, read_selection, read_tie_block, read_ties, select_scores, split_scores, Ties,
    BUCKETS_AT, MATCHED_AT, TIES_AT, TIE_BLOCK_WORDS, TIE_CAP, TOPK_WORDS,
};
use fff_index::gpu::scalar;
use fff_index::gpu::search::{MatcherState, Prefilter, Scorer};
use fff_index::gpu::subgroup;
use fff_index::gpu::topk::{merge_top, top_k_matches, top_k_scores};
use fff_index::score::hits::Hit;
use fff_index::simd_path::{ArenaPtr, ChunkedPathStoreBuilder};
use fff_index::types::FileItem;

fn strings(paths: &[&str]) -> Vec<String> {
    paths.iter().map(|p| p.to_string()).collect()
}

fn scoring() -> Scoring {
    Scoring {
        match_score: 12,
        mismatch_penalty: 6,
        gap_open_penalty: 5,
        gap_extend_penalty: 1,
        prefix_bonus: 12,
        delimiter_bonus: 4,
        capitalization_bonus: 4,
        matching_case_bonus: 4,
        exact_match_bonus: 8,
    }
}

fn words(text: &[u8]) -> Vec<u32> {
    text.chunks(4)
        .map(|c| {
            let mut bytes = [0u8; 4];
            bytes[..c.len()].copy_from_slice(c);
            u32::from_le_bytes(bytes)
        })
        .collect()
}

#[test]
fn paths_are_packed_at_word_boundaries() {
    let (hay, items) = pack_paths(&strings(&["abcde", "", "xy"]), 3);
    let mut expected = words(b"abcde\0\0\0xy\0\0");
    expected.push(0);
    assert_eq!(hay, expected);
    assert_eq!(items, [[12, 5], [20, 0], [20, 2]]);
}

#[test]
fn tight_paths_share_words() {
    let (hay, items) = pack_paths_tight(&strings(&["abcde", "xy"]));
    let mut expected = words(b"abcdexy");
    expected.push(0);
    assert_eq!(hay, expected);
    assert_eq!(items, [[0, 5], [5, 2]]);
}

#[test]
fn grids_cover_all_groups() {
    assert_eq!(grid(0), (1, 0));
    assert_eq!(grid(1), (1, 1));
    assert_eq!(grid(32768), (32768, 1));
    assert_eq!(grid(32769), (32768, 2));
}

#[test]
fn interleaved_paths_are_found_by_their_threads() {
    let paths = strings(&["a/longer/path.rs", "b", "middle.rs"]);
    assert!(can_pack(&paths, 0, 0, true));
    for sort in [false, true] {
        let (soa, starts, ids) = pack_paths_soa(&paths, 7, sort);
        assert_eq!(ids.len(), 64);
        assert_eq!(soa.len(), 64 * 4);
        assert_eq!(ids[..3].iter().map(|i| *i as u64).sum::<u64>(), 7 + 8 + 9);
        assert!(ids[3..].iter().all(|&i| i == u32::MAX));
        for (i, path) in paths.iter().enumerate() {
            for (w, word) in words(path.as_bytes()).into_iter().enumerate() {
                assert_eq!(soa[starts[i] as usize + 64 * w], word);
            }
        }
        let order: Vec<u32> = if sort { vec![8, 9, 7] } else { vec![7, 8, 9] };
        assert_eq!(&ids[..3], order);
    }
}

#[test]
fn tables_are_filled_behind_what_they_hold() {
    let first = strings(&["src/a.rs", "src/b.rs"]);
    let reserve = Reserve {
        items: 2,
        bytes: 16,
    };
    let (mut tables, upload) = Tables::with_reserve(&first, None, reserve);
    assert_eq!(tables.item_count, 2);
    assert_eq!(tables.thread_count, 64);
    assert_eq!(tables.hay_words, 5);
    assert_eq!(tables.soa_words, 128);
    assert_eq!(tables.item_cap, 4);
    assert_eq!(tables.hay_cap_words, 5 + 4 + 2);
    assert_eq!(tables.soa_cap_words, 128 + 8 + 128);
    assert_eq!(upload.fname, [u32::MAX, u32::MAX]);
    let sizes = tables.buffer_sizes();
    assert_eq!(sizes.hay, 48);
    assert_eq!(sizes.items, 32);
    assert_eq!(sizes.soa, 264 * 4);
    assert_eq!(sizes.soa_ids, 512);
    assert_eq!(sizes.per_item, 16);
    assert_eq!(sizes.staging, 32);
    assert_eq!(sizes.survivors, 64);

    let more = strings(&["c.rs"]);
    let upload = match tables.append(&more, Some(&[0])) {
        Ok(upload) => upload,
        Err(_) => panic!("no room"),
    };
    assert_eq!(upload.items_at, 2);
    assert_eq!(upload.hay_at, 5);
    assert_eq!(upload.soa_at, 128);
    assert_eq!(upload.ids_at, 64);
    assert_eq!(upload.items, [[20, 4]]);
    assert_eq!(upload.soa_start, [128]);
    assert_eq!(upload.fname, [0]);
    assert_eq!(upload.soa_ids[0], 2);
    assert_eq!(tables.item_count, 3);
    assert_eq!(tables.thread_count, 128);
    assert_eq!(tables.boost_count(2), 2);
    assert_eq!(tables.boost_count(9), 3);

    let before = tables.item_count;
    assert_eq!(
        tables.append(&strings(&["x", "y"]), None).err(),
        Some(ReserveExhausted)
    );
    assert_eq!(tables.item_count, before);
}

#[test]
fn searches_are_planned_from_what_is_known() {
    let paths = strings(&["src/main.rs"]);
    let none = Reserve { items: 8, bytes: 64 };
    let (mut state, _) = MatcherState::with_reserve(&paths, None, Kernel::Scalar, none, 0, true);
    assert_eq!(state.len(), 1);
    assert!(!state.is_empty());
    let plan = state.plan_search("ma", &scoring(), false, Some(50));
    assert_eq!(plan.params.needle_len, 2);
    assert_eq!(plan.params.item_count, 1);
    assert_eq!(plan.params.thread_count, 64);
    assert_eq!(plan.params.top_k, 50);
    assert_eq!(plan.params.gap_open, 5);
    assert_eq!(plan.needle.len(), 64);
    assert_eq!(&plan.needle[..3], b"ma\0");
    assert_eq!(plan.set, 1);
    assert_eq!(plan.prefilter, Prefilter::All { x: 1, y: 1 });
    assert_eq!(plan.scorer, Scorer::Scalar);
    assert_eq!(plan.score_at, 12);
    state.submitted("ma");
    let plan = state.plan_search("main", &scoring(), false, None);
    assert_eq!(plan.prefilter, Prefilter::Survivors { at: 12 });
    assert_eq!(plan.set, 0);
    assert_eq!(plan.params.top_k, 0);
    let other = state.plan_search("mx", &scoring(), false, None);
    assert_eq!(other.prefilter, Prefilter::All { x: 1, y: 1 });
    match state.append(&strings(&["new.rs"]), None) {
        Ok(Some(upload)) => assert_eq!(upload.items_at, 1),
        _ => panic!("no room"),
    }
    let plan = state.plan_search("main", &scoring(), false, None);
    assert_eq!(plan.prefilter, Prefilter::All { x: 2, y: 1 });
    assert!(matches!(state.append(&[], None), Ok(None)));
    state.submitted("main");
    state.set_incremental(false);
    let plan = state.plan_search("main.rs", &scoring(), false, None);
    assert_eq!(plan.prefilter, Prefilter::All { x: 2, y: 1 });
    let long = "n".repeat(80);
    assert_eq!(MatcherState::needle_len(&long), 64);
    assert_eq!(
        state.plan_search(&long, &scoring(), false, None).params.needle_len,
        64
    );
}

#[test]
fn truncated_needles_reuse_survivors() {
    let paths = strings(&["src/main.rs"]);
    let none = Reserve { items: 0, bytes: 0 };
    let (mut state, _) = MatcherState::with_reserve(&paths, None, Kernel::Scalar, none, 0, true);
    let long = "n".repeat(80);
    state.submitted(&long);
    let changed = "n".repeat(64) + "other";
    let plan = state.plan_search(&changed, &scoring(), false, None);
    assert!(matches!(plan.prefilter, Prefilter::Survivors { .. }));
    let shorter = "n".repeat(63);
    let plan = state.plan_search(&shorter, &scoring(), false, None);
    assert!(matches!(plan.prefilter, Prefilter::All { .. }));
}

#[test]
fn narrow_subgroups_are_not_tried_twice() {
    let paths = strings(&["src/main.rs"]);
    let none = Reserve { items: 0, bytes: 0 };
    let (mut state, _) = MatcherState::with_reserve(&paths, None, Kernel::Subgroup, none, 2, true);
    assert!(state.uses_scalar(2));
    assert!(!state.uses_scalar(3));
    assert!(!state.uses_subgroup(2));
    assert!(state.uses_subgroup(4));
    let plan = state.plan_search("main", &scoring(), true, None);
    assert_eq!(plan.scorer, Scorer::Subgroup);
    assert_eq!(plan.score_at, 0);
    assert!(!state.note_scores(4, true, &[3]));
    assert!(!state.note_scores(4, false, &[u32::MAX]));
    assert!(state.note_scores(4, true, &[3, u32::MAX]));
    assert!(!state.uses_subgroup(4));
    assert!(state.uses_subgroup(5));
    let plan = state.plan_search("main", &scoring(), false, None);
    assert_eq!(plan.scorer, Scorer::Lanes);

    let (mut item, _) =
        MatcherState::with_reserve(&paths, None, Kernel::ThreadPerItem, none, 0, true);
    item.submitted("ma");
    let plan = item.plan_search("main", &scoring(), false, None);
    assert_eq!(plan.prefilter, Prefilter::Off { x: 1, y: 1 });
    assert_eq!(plan.scorer, Scorer::Item);
}

#[test]
fn the_best_scores_come_first() {
    let scores = [0, 5, 9, 5, 0, 7];
    assert_eq!(top_k_scores(&scores, 3), [(9, 2), (7, 5), (5, 1)]);
    assert_eq!(top_k_scores(&scores, 10).len(), 4);
    assert!(top_k_scores(&[0, 0], 3).is_empty());
}

#[test]
fn hits_are_ranked_like_scores() {
    let hit = |index: u32, score: u16| Hit {
        index,
        score,
        exact: false,
        end_col: 0,
    };
    let hits = vec![hit(0, 3), hit(2, 8), hit(1, 8)];
    assert_eq!(top_k_matches(&hits, 10, 2), [(8, 11), (8, 12)]);
    assert_eq!(
        merge_top(vec![(9, 1), (3, 0)], vec![(8, 11), (8, 12)], 3),
        [(9, 1), (8, 11), (8, 12)]
    );
}

#[test]
fn selections_are_filled_up_with_ties() {
    let mut readback = vec![0u32; TOPK_WORDS];
    readback[0] = 5;
    readback[2] = 2;
    readback[3] = 3;
    readback[4..8].copy_from_slice(&[7, 9, 100, 0]);
    readback[8..12].copy_from_slice(&[8, 4, 200, 0]);
    readback[TIES_AT..TIES_AT + 6].copy_from_slice(&[30, 1, 10, 2, 20, 3]);
    readback[MATCHED_AT] = 12;
    let selection = read_selection(&readback, 4);
    assert_eq!(selection.threshold, 5);
    assert_eq!(selection.need, 2);
    let ties = match read_ties(&readback, selection.need) {
        Ties::Read(ties) => ties,
        Ties::Oversized { .. } => panic!("too many"),
    };
    assert_eq!(ties, [(30, 1), (10, 2), (20, 3)]);
    let top = finish_selection(&selection, &ties);
    assert_eq!(top.entries, [(8, 4), (7, 9), (5, 10), (5, 20)]);
    assert_eq!(top.meta, [200, 100, 2, 3]);
    assert_eq!(top.matched, 12);
}

#[test]
fn oversized_ties_are_fetched_by_bucket() {
    let mut readback = vec![0u32; TOPK_WORDS];
    readback[3] = TIE_CAP as u32 + 1;
    readback[BUCKETS_AT] = 3;
    readback[BUCKETS_AT + 1] = 0;
    readback[BUCKETS_AT + 2] = 40000;
    assert!(matches!(
        read_ties(&readback, 3),
        Ties::Oversized { bucket: 0 }
    ));
    assert!(matches!(
        read_ties(&readback, 4),
        Ties::Oversized { bucket: 2 }
    ));
    assert!(matches!(
        read_ties(&readback, 50000),
        Ties::Oversized { bucket: 4095 }
    ));
    let mut block = vec![0u32; TIE_BLOCK_WORDS];
    block[0] = 2;
    block[1..5].copy_from_slice(&[9, 1, 8, 2]);
    assert_eq!(read_tie_block(&block), [(9, 1), (8, 2)]);
}

#[test]
fn full_readbacks_are_ranked_on_the_host() {
    let readback = [4, 0, 6, 40, 41, 42];
    let (scores, meta) = split_scores(&readback, 3);
    assert_eq!(scores, [4, 0, 6]);
    assert_eq!(meta, [40, 41, 42]);
    let top = select_scores(&scores, &meta, 5);
    assert_eq!(top.entries, [(6, 2), (4, 0)]);
    assert_eq!(top.meta, [42, 40]);
    assert_eq!(top.matched, 2);
    assert!(split_scores(&[0, 0], 0).0.is_empty());
}

#[test]
fn shaders_are_unrolled_by_needle_length() {
    let short = scalar::generate(1);
    assert!(short.starts_with(scalar::HEADER));
    assert!(short.ends_with(scalar::TAIL));
    assert!(short.contains("    var h1 = 0;\n    var g1 = NEG;\n"));
    assert!(!short.contains("var h2 "));
    assert!(short.contains("    let nc0 = needle_byte(0u);\n    let fc0 = flip_case(nc0);\n"));
    let long = scalar::generate(12);
    assert!(long.contains("    var h12 = 0;\n    var g12 = NEG;\n"));
    assert_eq!(long.matches("let exact = c == nc").count(), 12);

    let group = subgroup::generate(5, 32);
    assert!(group.starts_with("const LANES: u32 = 32u;\n"));
    assert_ne!(group, subgroup::generate(5, 16));
    assert_ne!(group, subgroup::generate(6, 32));
}

#[test]
fn the_index_is_refreshed_when_it_must_be() {
    assert_eq!(plan_refresh(false, None, (1, 2), 5), None);
    assert_eq!(plan_refresh(true, None, (1, 2), 0), None);
    assert_eq!(plan_refresh(true, None, (1, 2), 5), Some(Refresh::Rebuild));
    let (index, send) = refreshed(None, Refresh::Rebuild, (1, 2), 5, 3);
    assert!(send);
    assert_eq!(index.indexed, 5);
    assert_eq!(
        plan_refresh(true, Some(index), (1, 2), 5),
        Some(Refresh::Keep)
    );
    assert_eq!(
        plan_refresh(true, Some(index), (1, 2), 7),
        Some(Refresh::Append { from: 5 })
    );
    assert_eq!(
        plan_refresh(true, Some(index), (1, 2), 4),
        Some(Refresh::Rebuild)
    );
    assert_eq!(
        plan_refresh(true, Some(index), (9, 2), 5),
        Some(Refresh::Rebuild)
    );
    assert_eq!(after_append(true), None);
    assert_eq!(after_append(false), Some(Refresh::Rebuild));
    let (_, send) = refreshed(Some(index), Refresh::Keep, (1, 2), 5, 3);
    assert!(!send);
    let next = bump_boost_gen(3);
    assert_eq!(next, 4);
    let (index, send) = refreshed(Some(index), Refresh::Keep, (1, 2), 5, next);
    assert!(send);
    assert_eq!(index.boost_gen, 4);
    assert_eq!(bump_boost_gen(u64::MAX), 0);
}

#[test]
fn gpu_status_tells_what_is_indexed() {
    assert!(enabled(None));
    assert!(enabled(Some("1")));
    assert!(enabled(Some("")));
    assert!(enabled(Some("00")));
    assert!(!enabled(Some("0")));
    let plain = GpuStatus::default();
    assert!(!plain.compiled && !plain.enabled && plain.adapter.is_none());
    let index = IndexState {
        base_key: (0, 0),
        indexed: 9,
        boost_gen: 1,
    };
    let known = status(true, Some("card".to_string()), Some(index));
    assert!(known.compiled && known.enabled);
    assert_eq!(known.adapter.as_deref(), Some("card"));
    assert_eq!(known.indexed_files, Some(9));
    assert_eq!(index_reserve().items, 1024);
    assert_eq!(index_reserve().bytes, 1024 * 512);
}

#[test]
fn files_hand_out_paths_and_boosts() {
    let mut base = ChunkedPathStoreBuilder::new(1);
    let mut overflow = ChunkedPathStoreBuilder::new(1);
    let mut first = FileItem::new_raw(4, 0, 0, true, false);
    first.set_path(base.add_file_immediate("src/a.rs", 4));
    first.access_frecency_score = 5;
    first.modification_frecency_score = 2;
    let mut second = FileItem::new_raw(0, 0, 0, false, false);
    second.set_path(overflow.add_file_immediate("new.rs", 0));
    second.access_frecency_score = -3;
    let rows = [first, second];
    let base = base.finish();
    let overflow = overflow.finish();
    let files = Files {
        files: &rows,
        base_count: 1,
        base_arena: ArenaPtr::new(&base),
        overflow_arena: ArenaPtr::new(&overflow),
    };
    assert!(files.can_read());
    let (paths, fname) = files.paths(0, 2);
    assert_eq!(paths, ["src/a.rs", "new.rs"]);
    assert_eq!(fname, [4, 0]);
    assert_eq!(files.boosts(), [22, -3]);
}

#[test]
fn unreadable_paths_are_told() {
    let mut builder = ChunkedPathStoreBuilder::new(1);
    let mut file = FileItem::new_raw(4, 0, 0, true, false);
    file.set_path(builder.add_file_immediate("src/a.rs", 4));
    let mut longer = file;
    longer.path.byte_len = 40;
    let store = builder.finish();
    let arena = ArenaPtr::new(&store);
    let null = ArenaPtr::null();
    let none: [FileItem; 0] = [];
    let one = [file];
    let two = [file, file];
    let bad = [longer];
    for (rows, base_arena, overflow_arena, readable) in [
        (&none[..], null, null, true),
        (&one[..], arena, null, true),
        (&one[..], null, arena, false),
        (&two[..], arena, null, false),
        (&two[..], arena, arena, true),
        (&bad[..], arena, arena, false),
    ] {
        let files = Files {
            files: rows,
            base_count: 1,
            base_arena,
            overflow_arena,
        };
        assert_eq!(files.can_read(), readable);
    }
}

#[test]
fn tables_tell_what_they_can_take() {
    let first = strings(&["src/a.rs"]);
    let reserve = Reserve {
        items: 2,
        bytes: 16,
    };
    let (mut tables, _) = Tables::with_reserve(&first, None, reserve);
    let more = strings(&["c.rs"]);
    assert!(tables.can_take(&more, false));
    tables.soa_words = u32::MAX as usize - 64;
    assert!(!tables.can_take(&more, false));
    tables.soa_words = u32::MAX as usize - 128;
    assert!(tables.can_take(&more, false));
    tables.soa_words += 1;
    assert!(!tables.can_take(&more, false));
    tables.soa_words = 64;
    tables.thread_count = u32::MAX as usize - 64;
    assert!(!tables.can_take(&more, false));
}
