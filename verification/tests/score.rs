use fff_index::score::context::{
    DirectoryDistance, FFFQuery, FuzzyQuery, PaginationArgs, QueryMatch, Score, ScoringContext,
};
use fff_index::score::dirs::fuzzy_match_and_score_dirs;
use fff_index::score::formula::score_match;
use fff_index::score::hits::{
    average_tallies, combine_hits, match_list, match_parts, open_tallies, Hit, MatchOptions,
};
use fff_index::score::files::{fuzzy_match_and_score_files, match_and_score_in_arena};
use fff_index::score::frecency::{frecency_scores, rank_by_frecency};
use fff_index::score::highlight::fuzzy_match_byte_offsets_for_page;
use fff_index::score::paginate::{sort_and_paginate, sort_and_paginate_dirs};
use fff_index::score::rows::FileItems;
use fff_index::simd_path::{
    ArenaPtr, ChunkedPathStore, ChunkedPathStoreBuilder, ChunkedString, PATH_BUF_SIZE,
};
use fff_index::types::{DirItem, FileItem};

fn text(query: &str) -> FFFQuery<'_> {
    if query.is_empty() {
        FFFQuery {
            fuzzy_query: FuzzyQuery::Empty,
        }
    } else if query.contains(' ') {
        FFFQuery {
            fuzzy_query: FuzzyQuery::Parts(query.split(' ').collect()),
        }
    } else {
        FFFQuery {
            fuzzy_query: FuzzyQuery::Text(query),
        }
    }
}

fn no_distance() -> DirectoryDistance {
    DirectoryDistance {
        penalties: Vec::new(),
    }
}

fn context<'a>(
    query: &'a FFFQuery<'a>,
    distance: &'a DirectoryDistance,
    max_typos: u16,
    pagination: PaginationArgs,
) -> ScoringContext<'a> {
    ScoringContext {
        query,
        kept: None,
        max_threads: 1,
        max_typos,
        current_file: None,
        distance,
        last_same_query_match: None,
        combo_boost_score_multiplier: 100,
        min_combo_count: 3,
        pagination,
        main_separator: std::path::MAIN_SEPARATOR,
    }
}

fn page(offset: usize, limit: usize) -> PaginationArgs {
    PaginationArgs { offset, limit }
}

fn make_files(paths: &[&str]) -> (Vec<FileItem>, ChunkedPathStore) {
    let mut builder = ChunkedPathStoreBuilder::new(paths.len());
    let mut files = Vec::new();
    for p in paths {
        let name = p.rfind('/').map(|i| i + 1).unwrap_or(0) as u16;
        let path = builder.add_file_immediate(p, name);
        let mut file = FileItem::new_raw(name, 0, 0, false, false);
        file.set_path(path);
        files.push(file);
    }
    (files, builder.finish())
}

fn make_scored_files(specs: &[(&str, i32, u64)]) -> (Vec<(FileItem, Score)>, ChunkedPathStore) {
    let paths: Vec<&str> = specs.iter().map(|s| s.0).collect();
    let (files, store) = make_files(&paths);
    let scored = files
        .iter()
        .zip(specs)
        .map(|(f, s)| {
            let mut file = *f;
            file.modified = s.2;
            let score = Score {
                total: s.1,
                base_score: s.1,
                match_type: "test",
                ..Default::default()
            };
            (file, score)
        })
        .collect();
    (scored, store)
}

/// Searches with as many typos as the length of the query allows.
fn search(files: &[FileItem], query: &str, store: &ChunkedPathStore) -> Vec<(String, Score)> {
    let max_typos = (query.len() as u16 / 4).clamp(2, 6);
    search_with(files, query, store, max_typos)
}

fn search_with(
    files: &[FileItem],
    query: &str,
    store: &ChunkedPathStore,
    max_typos: u16,
) -> Vec<(String, Score)> {
    let parsed = text(query);
    let distance = no_distance();
    let ctx = context(&parsed, &distance, max_typos, page(0, 100));
    let arena = ArenaPtr::new(store);
    let (items, scores, _) = fuzzy_match_and_score_files(files, &ctx, files.len(), arena, arena);
    items
        .iter()
        .zip(scores.iter())
        .map(|(f, s)| (f.relative_path(store), *s))
        .collect()
}

#[test]
fn frecency_parallel_and_sequential_scores_match() {
    let files: Vec<FileItem> = (0..33_000u64)
        .map(|index| {
            let mut file = FileItem::new_raw(0, 0, index, true, false);
            file.access_frecency_score = (index % 97) as i16;
            file.modification_frecency_score = (index % 29) as i16;
            file.git_recency_score = (index % 13) as i16;
            file.set_deleted(index % 7 == 0);
            file
        })
        .collect();
    let query = text("");
    let distance = no_distance();
    let mut ctx = context(&query, &distance, 0, page(0, 50));
    for count in [0, 1, 1000, 33_000usize] {
        let items = FileItems::All(&files[..count]);
        ctx.max_threads = 4;
        let parallel = frecency_scores(&items, &ctx, ArenaPtr::null());
        ctx.max_threads = 1;
        let sequential = frecency_scores(&items, &ctx, ArenaPtr::null());
        assert_eq!(parallel.len(), count - count.div_ceil(7));
        assert_eq!(parallel.len(), sequential.len());
        for ((a, a_score), (b, b_score)) in parallel.iter().zip(&sequential) {
            assert!(std::ptr::eq(*a, *b));
            assert!(!a.is_deleted());
            assert_eq!(a_score.total, b_score.total);
            assert_eq!(a_score.frecency_boost, b_score.frecency_boost);
            assert_eq!(a_score.git_status_boost, b_score.git_status_boost);
            assert_eq!(a_score.git_recency_boost, b_score.git_recency_boost);
        }

        // Keyed ranking must produce the same page as ranking full scores.
        ctx.max_threads = 4;
        let (expected_items, expected_scores, expected_total) =
            sort_and_paginate(parallel, ctx.pagination);
        let (items, scores, total) = rank_by_frecency(
            &files[..count],
            &ctx,
            count / 2,
            ArenaPtr::null(),
            ArenaPtr::null(),
        );
        assert_eq!(total, expected_total);
        assert_eq!(items.len(), expected_items.len());
        for ((a, a_score), (b, b_score)) in items
            .iter()
            .zip(&scores)
            .zip(expected_items.iter().zip(&expected_scores))
        {
            assert!(std::ptr::eq(*a, *b));
            assert_eq!(a_score.total, b_score.total);
            assert_eq!(a_score.match_type, "frecency");
        }
    }
}

#[test]
fn pagination_matches_full_ranking() {
    let files: Vec<FileItem> = (0..257u64)
        .map(|i| FileItem::new_raw(0, 0, i, false, false))
        .collect();
    let dirs: Vec<DirItem> = (0..257)
        .map(|_| DirItem::new(ChunkedString::new(0, 0, 0), 0))
        .collect();
    for count in [0, 1, 3, 100, 101, 257usize] {
        let results: Vec<(&FileItem, Score)> = files[..count]
            .iter()
            .enumerate()
            .map(|(index, file)| {
                (
                    file,
                    Score {
                        total: (index * 73 % 257) as i32,
                        ..Default::default()
                    },
                )
            })
            .collect();
        let mut expected = results.clone();
        expected.sort_by(|a, b| {
            b.1.total
                .cmp(&a.1.total)
                .then_with(|| b.0.modified.cmp(&a.0.modified))
        });
        for offset in [0, 1, count / 2, count, usize::MAX] {
            for limit in [0, 1, 2, 50, count, usize::MAX] {
                let expected_page: Vec<i32> = expected
                    .iter()
                    .skip(offset)
                    .take(if limit == 0 { count } else { limit })
                    .map(|(_, score)| score.total)
                    .collect();
                let (items, scores, total) = sort_and_paginate(results.clone(), page(offset, limit));
                assert_eq!(total, count);
                assert_eq!(items.len(), expected_page.len());
                assert_eq!(
                    scores.iter().map(|score| score.total).collect::<Vec<_>>(),
                    expected_page
                );
                let dir_results = results
                    .iter()
                    .enumerate()
                    .map(|(index, (_, score))| (&dirs[index], *score))
                    .collect();
                let (items, scores, total) =
                    sort_and_paginate_dirs(dir_results, page(offset, limit));
                assert_eq!(total, count);
                assert_eq!(items.len(), expected_page.len());
                assert_eq!(
                    scores.iter().map(|score| score.total).collect::<Vec<_>>(),
                    expected_page
                );
            }
        }
    }
}

#[test]
fn test_partial_sort_descending() {
    let (test_data, store) = make_scored_files(&[
        ("file1.rs", 100, 1000),
        ("file2.rs", 200, 2000),
        ("file3.rs", 50, 3000),
        ("file4.rs", 300, 4000),
        ("file5.rs", 150, 5000),
        ("file6.rs", 250, 6000),
        ("file7.rs", 80, 7000),
        ("file8.rs", 180, 8000),
        ("file9.rs", 120, 9000),
        ("file10.rs", 90, 10000),
    ]);
    let results: Vec<(&FileItem, Score)> = test_data.iter().map(|(f, s)| (f, *s)).collect();

    let (items, scores, total) = sort_and_paginate(results, page(0, 0));

    assert_eq!(total, 10);
    assert_eq!(scores.len(), 10);
    assert_eq!(scores[0].total, 300, "First should be highest score");
    assert_eq!(scores[1].total, 250, "Second should be second highest");
    assert_eq!(scores[2].total, 200, "Third should be third highest");
    assert_eq!(items[0].relative_path(&store), "file4.rs");
    assert_eq!(items[1].relative_path(&store), "file6.rs");
    assert_eq!(items[2].relative_path(&store), "file2.rs");
}

#[test]
fn test_partial_sort_with_same_scores() {
    let (test_data, _store) = make_scored_files(&[
        ("file1.rs", 100, 5000),
        ("file2.rs", 100, 8000),
        ("file3.rs", 100, 3000),
        ("file4.rs", 200, 1000),
        ("file5.rs", 200, 9000),
    ]);
    let results: Vec<(&FileItem, Score)> = test_data.iter().map(|(f, s)| (f, *s)).collect();

    let (items, scores, _) = sort_and_paginate(results, page(0, 0));

    assert_eq!(scores.len(), 5);
    assert_eq!(scores[0].total, 200);
    assert_eq!(items[0].modified, 9000, "First 200 should be newest");
    assert_eq!(scores[1].total, 200);
    assert_eq!(items[1].modified, 1000, "Second 200 should be older");
    assert_eq!(scores[2].total, 100);
    assert_eq!(items[2].modified, 8000, "First 100 should be newest");
    assert_eq!(scores[3].total, 100);
    assert_eq!(items[3].modified, 5000);
    assert_eq!(scores[4].total, 100);
    assert_eq!(items[4].modified, 3000, "Last 100 should be oldest");
}

#[test]
fn test_no_partial_sort_for_small_results() {
    let (test_data, store) = make_scored_files(&[
        ("file1.rs", 100, 1000),
        ("file2.rs", 200, 2000),
        ("file3.rs", 50, 3000),
    ]);
    let results: Vec<(&FileItem, Score)> = test_data.iter().map(|(f, s)| (f, *s)).collect();

    let (items, scores, _) = sort_and_paginate(results, page(0, 0));

    assert_eq!(scores.len(), 3);
    assert_eq!(scores[0].total, 200);
    assert_eq!(scores[1].total, 100);
    assert_eq!(scores[2].total, 50);
    assert_eq!(items[0].relative_path(&store), "file2.rs");
    assert_eq!(items[1].relative_path(&store), "file1.rs");
    assert_eq!(items[2].relative_path(&store), "file3.rs");
}

#[test]
fn page_highlights_use_each_files_arena() {
    let base_path = "src/ui_controller.rs";
    let overflow_path = "other/test_controller.rs";
    let (base, base_store) = make_files(&[base_path]);
    let (mut overflow, overflow_store) = make_files(&[overflow_path]);
    overflow[0].set_layer(1);
    let query = text("controller");
    let ranges = fuzzy_match_byte_offsets_for_page(
        &query,
        &[&base[0], &overflow[0]],
        0,
        ArenaPtr::new(&base_store),
        ArenaPtr::new(&overflow_store),
    );
    assert_eq!(ranges.len(), 2);
    for (path, ranges) in [base_path, overflow_path].into_iter().zip(ranges) {
        let start = path.find("controller").unwrap_or(0) as u32;
        assert_eq!(ranges.as_slice(), &[(start, start + 10)]);
    }
}

#[test]
fn distance_scoring_handles_repeated_and_unknown_parents() {
    let paths = [
        "src/widgets/file_a.rs",
        "src/widgets/file_b.rs",
        "src/file_c.rs",
        "tests/file_d.rs",
    ];
    let (mut files, store) = make_files(&paths);
    files[0].parent_dir_index = 0;
    files[1].parent_dir_index = 0;
    let query = text("file");
    let distance = DirectoryDistance {
        penalties: vec![(b"src/".to_vec(), -1), (b"tests/".to_vec(), -4)],
    };
    let mut ctx = context(&query, &distance, 0, page(0, 50));
    ctx.current_file = Some("src/widgets/current.rs");
    ctx.combo_boost_score_multiplier = 0;
    ctx.min_combo_count = 0;
    let results = match_and_score_in_arena(&files, &ctx, 0, ArenaPtr::new(&store));
    assert_eq!(results.len(), files.len());
    for (file, score) in results {
        let path = file.relative_path(&store);
        let dir = &path[..file.path.filename_offset as usize];
        assert_eq!(score.distance_penalty, distance.penalty(dir.as_bytes()));
    }
}

#[test]
fn test_filename_match_ranks_above_path_only_match() {
    let (files, store) = make_files(&["src/username/handler.rs", "src/username/username.rs"]);

    let results = search(&files, "usrnmea", &store);

    assert!(
        results.len() >= 2,
        "both files should match, got {}",
        results.len()
    );
    assert_eq!(
        results[0].0, "src/username/username.rs",
        "filename match should rank first"
    );
    assert!(
        results[0].1.filename_bonus > 0,
        "username.rs should have filename bonus"
    );
    assert_eq!(
        results[1].1.filename_bonus, 0,
        "handler.rs should have no filename bonus"
    );
}

#[test]
fn test_exact_filename_beats_fuzzy_filename() {
    let (files, store) = make_files(&["src/user_name_handler.rs", "src/username.rs"]);

    let results = search(&files, "username.rs", &store);

    assert!(results.len() >= 2);
    assert_eq!(
        results[0].0, "src/username.rs",
        "exact filename should rank first"
    );
    assert_eq!(results[0].1.match_type, "exact_filename");
    assert!(results[0].1.filename_bonus > results[1].1.filename_bonus);
}

#[test]
fn test_same_length_filename_no_false_exact() {
    let (files, store) = make_files(&["src/item_sync/file.rs", "src/models/item.rs"]);

    let results = search(&files, "item.rs", &store);

    assert!(results.len() >= 2);
    assert_eq!(results[0].0, "src/models/item.rs");
    assert_eq!(results[0].1.match_type, "exact_filename");
    assert_ne!(
        results[1].1.match_type, "exact_filename",
        "file.rs should not get exact_filename"
    );
}

#[test]
fn test_path_separator_disables_filename_bonus() {
    let (files, store) = make_files(&["src/controllers/user.rs"]);

    let results = search(&files, "src/user", &store);

    assert!(!results.is_empty());
    assert_eq!(
        results[0].1.filename_bonus, 0,
        "path-like query should not get filename bonus"
    );
}

#[test]
fn test_full_path_query_prefers_closer_filename_match() {
    let (mut files, store) = make_files(&[
        "test-utils/completion/condition-key/yaml_partial-svc-colon.yml",
        "test-utils/test-cases/completion/condition-key/yaml_partial-svc.yml",
        "test-utils/action-value/yaml_inline_partial-svc-colon.yml",
        "test-utils/completion/action-value/yaml_array_partial-svc-colon.yml",
        "test-utils/completion/action-value/yaml_array_partial-svc.yml",
        "test-utils/completion/condition-key/yaml_global-tag-keys.yml",
        "test-utils/test-cases/completion/condition-key/yaml_partial.yml",
    ]);
    files[6].access_frecency_score = 10;

    let results = search(
        &files,
        "t-utils/test-cases/completion/condition-key/yaml_partial-svc.yml",
        &store,
    );

    assert!(!results.is_empty(), "query should match at least one file");

    assert_eq!(
        results[0].0, "test-utils/test-cases/completion/condition-key/yaml_partial-svc.yml",
        "near-exact full-path match should rank first, but got: {} \
         (total={}, base={}, frecency={})",
        results[0].0, results[0].1.total, results[0].1.base_score, results[0].1.frecency_boost,
    );
}

#[test]
fn test_path_longer_than_512_bytes_does_not_panic_and_matches() {
    let mut long_path = String::new();
    while long_path.len() < 600 {
        long_path.push_str("deeply_nested_directory_segment/");
    }
    long_path.push_str("needle_file.rs");
    assert!(long_path.len() > 512 && long_path.len() < PATH_BUF_SIZE);

    let (files, store) = make_files(&[long_path.as_str(), "src/other.rs"]);

    let results = search(&files, "needle", &store);

    assert!(
        results.iter().any(|(p, _)| p == &long_path),
        "filename at the tail of a >512-byte path must still match, got: {:?}",
        results.iter().map(|(p, _)| p).collect::<Vec<_>>()
    );
}

#[test]
fn test_single_path_matching() {
    let path = "core_workflow_service/kafka_event_consumer/src/ai_part_extraction_request/ai_part_extraction_request_handler.rs";

    let options = neo_frizbee::Config {
        max_typos: Some(2),
        sort: neo_frizbee::SortStrategy::Unsorted,
        ..Default::default()
    };

    let matches = neo_frizbee::Matcher::new("aipart", &options).match_list(&[path]);
    assert!(!matches.is_empty(), "'aipart' should match the path");

    let matches = neo_frizbee::Matcher::new("core", &options).match_list(&[path]);
    assert!(!matches.is_empty(), "'core' should match the path");

    let co_options = neo_frizbee::Config {
        max_typos: Some(2),
        ..options
    };
    let matches = neo_frizbee::Matcher::new("co", &co_options).match_list(&[path]);
    assert!(!matches.is_empty(), "'co' should match the path");
}

#[test]
fn test_lowercase_path_matching() {
    let path = "core_workflow_service/kafka_event_consumer/src/ai_part_extraction_request/ai_part_extraction_request_handler.rs".to_lowercase();

    let options = neo_frizbee::Config {
        max_typos: Some(2),
        sort: neo_frizbee::SortStrategy::Unsorted,
        ..Default::default()
    };

    let matches = neo_frizbee::Matcher::new("co", &options).match_list(&[path.as_str()]);
    assert!(!matches.is_empty(), "'co' should match the lowercase path");

    let matches = neo_frizbee::Matcher::new("core", &options).match_list(&[path.as_str()]);
    assert!(
        !matches.is_empty(),
        "'core' should match the lowercase path"
    );
}

#[test]
fn recency_boost_breaks_ties_between_equal_fuzzy_matches() {
    let (mut files, store) = make_files(&["src/xxx/handler.rs", "src/yyy/handler.rs"]);
    files[1].git_recency_score = 5;

    let results = search_with(&files, "handler", &store, 2);

    assert!(results.len() >= 2);
    assert_eq!(results[0].0, "src/yyy/handler.rs");
    assert_eq!(results[0].1.git_recency_boost, 5);
    assert_eq!(results[1].1.git_recency_boost, 0);
    assert_eq!(
        results[0].1.total - results[1].1.total,
        5,
        "boost is additive: exactly +1 point per participating commit"
    );
}

#[test]
fn recency_boost_ranks_files_in_frecency_only_mode() {
    let (mut files, store) = make_files(&["cold.rs", "committed.rs"]);
    files[1].git_recency_score = 7;

    let results = search_with(&files, "", &store, 2);

    assert_eq!(results[0].0, "committed.rs");
    assert_eq!(results[0].1.git_recency_boost, 7);
    assert_eq!(results[0].1.total, 7);
    assert_eq!(results[0].1.match_type, "frecency");
}

#[test]
fn test_typo_resistant_long_query() {
    let (files, store) = make_files(&[
        "src/pricing/bid_comparison_supplier_part_cost_modifiers.rs",
        "src/pricing/bid_evaluation_handler.rs",
        "src/pricing/supplier_contract_terms.rs",
        "src/models/purchase_order.rs",
        "src/models/inventory_item.rs",
        "src/controllers/user_controller.rs",
        "src/controllers/admin_controller.rs",
        "src/services/notification_service.rs",
        "src/services/email_dispatcher.rs",
        "src/utils/string_helpers.rs",
        "src/utils/date_formatter.rs",
        "src/db/migration_runner.rs",
        "src/db/connection_pool.rs",
        "src/config/app_settings.rs",
        "src/config/feature_flags.rs",
    ]);

    // Exact substring: must always match.
    let results = search_with(&files, "bid_comparison", &store, 6);
    assert!(
        results
            .iter()
            .any(|(p, _)| p.contains("bid_comparison_supplier_part_cost_modifiers")),
        "exact substring 'bid_comparison' should match, got: {results:?}"
    );

    // Concatenated query with typos.
    let results = search_with(&files, "bidcomparsionsupplierpartcostmodfiers", &store, 6);
    assert!(
        results
            .iter()
            .any(|(p, _)| p.contains("bid_comparison_supplier_part_cost_modifiers")),
        "typo query 'bidcomparsionsupplierpartcostmodfiers' should match, got: {results:?}"
    );

    // Shorter typo query.
    let results = search_with(&files, "bidcomp", &store, 4);
    assert!(
        results.iter().any(|(p, _)| p.contains("bid_comparison")),
        "'bidcomp' should match bid_comparison file, got: {results:?}"
    );

    // Query with missing underscores.
    let results = search_with(&files, "supplierpartcost", &store, 6);
    assert!(
        results
            .iter()
            .any(|(p, _)| p.contains("bid_comparison_supplier_part_cost_modifiers")),
        "'supplierpartcost' should match, got: {results:?}"
    );
}

#[test]
fn constraint_only_git_status_query_returns_filtered_files() {
    let (mut files, store) = make_files(&["modified.rs", "clean.rs"]);
    files[0].git_modified = true;
    let kept: Vec<bool> = files.iter().map(|f| f.git_modified).collect();
    let query = text("");
    let distance = no_distance();
    let mut ctx = context(&query, &distance, 2, page(0, 50));
    ctx.kept = Some(&kept);
    let arena = ArenaPtr::new(&store);

    let (items, _scores, total_matched) =
        fuzzy_match_and_score_files(&files, &ctx, files.len(), arena, arena);

    assert_eq!(
        total_matched, 1,
        "git:modified constraint-only query should match exactly 1 modified file"
    );
    assert_eq!(items.len(), 1);
    assert_eq!(items[0].relative_path(&store), "modified.rs");
}

#[test]
fn constraint_only_status_modified_alias_returns_filtered_files() {
    let (mut files, store) = make_files(&["a.rs", "b.rs"]);
    files[0].git_modified = true;
    let kept: Vec<bool> = files.iter().map(|f| f.git_modified).collect();
    let query = text("");
    let distance = no_distance();
    let mut ctx = context(&query, &distance, 2, page(0, 50));
    ctx.kept = Some(&kept);
    let arena = ArenaPtr::new(&store);

    let (items, _scores, total_matched) =
        fuzzy_match_and_score_files(&files, &ctx, files.len(), arena, arena);

    assert_eq!(total_matched, 1);
    assert_eq!(items[0].relative_path(&store), "a.rs");
}

#[test]
fn all_parts_of_a_query_must_match() {
    let (files, store) = make_files(&["src/alpha/beta.rs", "src/alpha/gamma.rs", "lib/beta.rs"]);
    let results = search_with(&files, "alpha beta", &store, 0);
    let paths: Vec<&str> = results.iter().map(|(p, _)| p.as_str()).collect();
    assert_eq!(paths, ["src/alpha/beta.rs"]);
}

#[test]
fn files_opened_from_the_same_query_gain() {
    let (files, store) = make_files(&["src/handler.rs", "src/handler2.rs"]);
    let query = text("handler");
    let distance = no_distance();
    let last = QueryMatch {
        file_path: "src/handler2.rs".to_string(),
        open_count: 3,
    };
    let mut ctx = context(&query, &distance, 0, page(0, 10));
    let arena = ArenaPtr::new(&store);
    let (_, plain, _) = fuzzy_match_and_score_files(&files, &ctx, files.len(), arena, arena);
    assert!(plain.iter().all(|s| s.combo_match_boost == 0));
    ctx.last_same_query_match = Some(&last);
    let (items, scores, _) = fuzzy_match_and_score_files(&files, &ctx, files.len(), arena, arena);
    assert_eq!(items[0].relative_path(&store), "src/handler2.rs");
    assert_eq!(scores[0].combo_match_boost, 300);
}

#[test]
fn deleted_files_are_not_found() {
    let (mut files, store) = make_files(&["src/one.rs", "src/one_more.rs"]);
    files[0].set_deleted(true);
    let results = search_with(&files, "one", &store, 0);
    assert_eq!(results.len(), 1);
    assert_eq!(results[0].0, "src/one_more.rs");
}

#[test]
fn directories_are_searched_by_path() {
    let paths = ["src/", "src/widgets/", "docs/"];
    let mut builder = ChunkedPathStoreBuilder::new(3);
    let dirs: Vec<DirItem> = paths
        .iter()
        .map(|p| {
            let last = p[..p.len() - 1].rfind('/').map(|i| i + 1).unwrap_or(0) as u16;
            DirItem::new(builder.add_dir_immediate(p), last)
        })
        .collect();
    let store = builder.finish();
    let query = text("widgets");
    let distance = no_distance();
    let ctx = context(&query, &distance, 0, page(0, 10));
    let arena = ArenaPtr::new(&store);
    let (found, scores, total) = fuzzy_match_and_score_dirs(&dirs, &ctx, arena, arena);
    assert_eq!(total, 1);
    assert_eq!(found[0].relative_path(&store), "src/widgets/");
    assert!(scores[0].total > 0);

    let all = text("");
    let ctx = context(&all, &distance, 0, page(0, 2));
    let (found, _, total) = fuzzy_match_and_score_dirs(&dirs, &ctx, arena, arena);
    assert_eq!(total, 3);
    assert_eq!(found.len(), 2);
}

#[test]
fn the_platform_separator_counts_too() {
    let path = r"dir\some_controller.rs";
    let (files, store) = make_files(&[path]);
    let query = text(path);
    let distance = no_distance();
    let mut ctx = context(&query, &distance, 2, page(0, 10));
    ctx.main_separator = '\\';
    let arena = ArenaPtr::new(&store);
    let with = match_and_score_in_arena(&files, &ctx, 0, arena);
    assert_eq!(with.len(), 1);
    assert!(with[0].1.path_alignment_bonus > 0);
    ctx.main_separator = '/';
    let without = match_and_score_in_arena(&files, &ctx, 0, arena);
    assert_eq!(without[0].1.path_alignment_bonus, 0);
}

#[test]
fn needle_lengths_are_counted_in_sixteen_bits() {
    let query = text("aa");
    let distance = no_distance();
    let ctx = context(&query, &distance, 0, page(0, 10));
    let file = FileItem::new_raw(1, 0, 0, false, false);
    let hit = Hit {
        index: 0,
        score: 60,
        exact: false,
        end_col: 2,
    };
    // Counted as one byte, the needle starts where it ends.
    let needle = vec![b'a'; 65537];
    let score = score_match(&file, b"/aa", &hit, &None, &needle, false, &ctx, 0);
    assert_eq!(score.match_type, "fuzzy_filename");
    assert_eq!(score.filename_bonus, 10);
    let needle = vec![b'a'; 65535];
    let score = score_match(&file, b"/aa", &hit, &None, &needle, false, &ctx, 0);
    assert_eq!(score.match_type, "fuzzy_path");
}

#[test]
fn the_end_of_the_base_scan_does_not_show() {
    let files: Vec<FileItem> = (0..20u64)
        .map(|i| {
            let mut file = FileItem::new_raw(0, 0, i, false, false);
            file.access_frecency_score = (i * 7 % 5) as i16;
            file.set_deleted(i == 3);
            file
        })
        .collect();
    let query = text("");
    let distance = no_distance();
    let ctx = context(&query, &distance, 0, page(2, 6));
    let null = ArenaPtr::null();
    let (expected, _, all) = rank_by_frecency(&files, &ctx, files.len(), null, null);
    assert_eq!(all, 19);
    assert_eq!(expected.len(), 6);
    for base_count in [0, 1, 7, 19, 30] {
        let (items, scores, total) = rank_by_frecency(&files, &ctx, base_count, null, null);
        assert_eq!(total, all);
        for (a, b) in items.iter().zip(&expected) {
            assert!(std::ptr::eq(*a, *b));
            assert!(!a.is_deleted());
        }
        assert!(scores.iter().all(|s| s.match_type == "frecency"));
    }
}

fn hit(index: u32, score: u16, exact: bool, end_col: u16) -> Hit {
    Hit {
        index,
        score,
        exact,
        end_col,
    }
}

#[test]
fn scores_are_averaged_over_all_parts() {
    let first = vec![
        hit(4, 30, true, 7),
        hit(1, 65535, true, 2),
        hit(9, 10, false, 5),
    ];
    // The second part misses the last of them, and the third finds the others
    // in the other order.
    let second = vec![hit(0, 30, true, 1), hit(1, 65535, false, 3)];
    let third = vec![hit(1, 65535, true, 8), hit(0, 30, true, 9)];
    let sums = open_tallies(&first);
    let sums = combine_hits(&sums, &second);
    let sums = combine_hits(&sums, &third);
    let sum_of: Vec<(u32, u128)> = sums.iter().map(|t| (t.index, t.sum)).collect();
    assert_eq!(sum_of, [(1, 196605), (4, 90)]);
    let hits = average_tallies(&sums, 3);
    let seen: Vec<(u32, u16, bool, u16)> = hits
        .iter()
        .map(|h| (h.index, h.score, h.exact, h.end_col))
        .collect();
    assert_eq!(seen, [(1, 65535, false, 2), (4, 30, true, 7)]);
}

#[test]
fn three_parts_share_their_scores_evenly() {
    let texts: Vec<String> = ["lib/alpha.rs", "src/alpha/beta_gamma.rs", "src/alpha/beta.rs"]
        .iter()
        .map(|t| t.to_string())
        .collect();
    let options = MatchOptions {
        max_typos: 0,
        capitalization_bonus: 0,
        matching_case_bonus: 0,
    };
    let parts = ["alpha", "beta", "gamma"];
    let found = match_parts(&parts.to_vec(), &texts, options, 1);
    assert_eq!(found.len(), 1);
    assert_eq!(found[0].index, 1);
    let alone: Vec<Hit> = parts
        .iter()
        .map(|p| match_list(p, &texts[1..2].to_vec(), options, 1)[0])
        .collect();
    let sum: u32 = alone.iter().map(|h| h.score as u32).sum();
    assert_eq!(found[0].score as u32, sum / 3);
    assert!(found[0].score > 16);
    assert_eq!(found[0].end_col, alone[0].end_col);
    assert!(!found[0].exact);
    let none = match_parts(&vec!["alpha", "missing", "beta"], &texts, options, 1);
    assert!(none.is_empty());
}

#[test]
fn combos_are_counted_as_their_branch_says() {
    let (files, store) = make_files(&["src/handler.rs"]);
    let query = text("handler");
    let distance = no_distance();
    let arena = ArenaPtr::new(&store);
    let last = QueryMatch {
        file_path: "src/handler.rs".to_string(),
        open_count: u32::MAX,
    };
    let mut ctx = context(&query, &distance, 0, page(0, 10));
    ctx.last_same_query_match = Some(&last);
    ctx.min_combo_count = 0;
    ctx.combo_boost_score_multiplier = i32::MAX;
    let (_, scores, _) = fuzzy_match_and_score_files(&files, &ctx, 1, arena, arena);
    assert_eq!(scores[0].combo_match_boost, 1000);
    ctx.min_combo_count = 3;
    ctx.combo_boost_score_multiplier = 100;
    let (_, scores, _) = fuzzy_match_and_score_files(&files, &ctx, 1, arena, arena);
    assert_eq!(scores[0].combo_match_boost, -100);
    let last = QueryMatch {
        file_path: "src/handler.rs".to_string(),
        open_count: 2,
    };
    ctx.last_same_query_match = Some(&last);
    ctx.combo_boost_score_multiplier = i32::MAX;
    let (_, scores, _) = fuzzy_match_and_score_files(&files, &ctx, 1, arena, arena);
    assert_eq!(scores[0].combo_match_boost, 10);
}
