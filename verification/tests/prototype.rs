use fff_index::gpu::matcher::Scoring;
use fff_index::prototype::bench::{median, scale, top_k};
use fff_index::prototype::columns::score_scalar;
use fff_index::prototype::hybrid::{gpu_share, merge_parts, top_k_matches, top_k_scores};
use fff_index::prototype::lanes::score;
use fff_index::prototype::matcher::{Kernel, MatcherState, Scorer};
use fff_index::prototype::window::{flip_case, prefilter_window};
use fff_index::score::hits::Hit;

fn scoring() -> Scoring {
    Scoring {
        match_score: 12,
        mismatch_penalty: 6,
        gap_open_penalty: 5,
        gap_extend_penalty: 1,
        prefix_bonus: 12,
        delimiter_bonus: 4,
        capitalization_bonus: 4,
        matching_case_bonus: 4,
        exact_match_bonus: 8,
    }
}

#[test]
fn case_is_flipped_for_letters_only() {
    assert_eq!(flip_case(b'a'), b'A');
    assert_eq!(flip_case(b'Z'), b'z');
    assert_eq!(flip_case(b'_'), b'_');
    assert_eq!(flip_case(0xe9), 0xe9);
}

#[test]
fn windows_span_from_first_to_last_byte() {
    assert_eq!(prefilter_window(b"mr", b"src/Main.rs.r"), Some((4, 13)));
    assert_eq!(prefilter_window(b"ba", b"ab"), None);
    assert_eq!(prefilter_window(b"", b"ab"), None);
    assert_eq!(prefilter_window(b"a", b""), None);
}

#[test]
fn a_single_byte_scores_its_bonuses() {
    let s = scoring();
    // 12 for the match, 4 for its case, 12 for the start, 8 for the whole.
    assert_eq!(score_scalar(b"a", b"a", &s), 36);
    assert_eq!(score(b"a", b"a", &s, 4), 36);
    // Another case earns no case bonus.
    assert_eq!(score_scalar(b"a", b"A", &s), 32);
    // Behind a delimiter.
    assert_eq!(score_scalar(b"a", b"/a", &s), 20);
    // A capital behind a small letter.
    assert_eq!(score_scalar(b"A", b"xA", &s), 20);
    // What is in front of the window does not count for lanes.
    assert_eq!(score(b"a", b"/a", &s, 4), 16);
    assert_eq!(score_scalar(b"z", b"a", &s), 0);
    assert_eq!(score(b"z", b"a", &s, 4), 0);
    assert_eq!(score_scalar(b"", b"a", &s), 0);
}

#[test]
fn gaps_cost_opening_and_extending() {
    let s = scoring();
    // Start 12 + 16, then a gap of one byte: 5, then 16.
    let close = score_scalar(b"ab", b"ab", &s);
    assert_eq!(close, 12 + 16 + 16 + 8);
    assert_eq!(score_scalar(b"ab", b"axb", &s), 12 + 16 - 5 + 16);
    assert_eq!(score_scalar(b"ab", b"axxb", &s), 12 + 16 - 6 + 16);
    assert_eq!(score(b"ab", b"axb", &s, 4), 12 + 16 - 5 + 16);
    assert_eq!(score(b"ab", b"axxb", &s, 2), 12 + 16 - 6 + 16);
}

#[test]
fn the_cheapest_gap_is_taken() {
    let s = scoring();
    // From the second `a`: no prefix bonus, but only one byte to bridge.
    assert_eq!(score_scalar(b"ab", b"axxxxxxxxxxxxaxb", &s), 16 - 5 + 16);
    // With fewer bytes to skip, the first one costs 16 and gains 12.
    assert_eq!(score_scalar(b"ab", b"axxxxxxxxxxaxb", &s), 12 + 16 - 16 + 16);
    // From the first: its prefix bonus outweighs the longer gap.
    assert_eq!(score_scalar(b"ab", b"axaxb", &s), 12 + 16 - 7 + 16);
}

#[test]
fn longer_needles_keep_survivors() {
    for path in ["src/Main.rs", "main", "m_a_i_n"] {
        for end in 1..5 {
            if prefilter_window(b"main", path.as_bytes()).is_some() {
                assert!(prefilter_window(&b"main"[..end], path.as_bytes()).is_some());
            }
        }
    }
    assert_eq!(prefilter_window(b"main", b"mani"), None);
    assert!(prefilter_window(b"man", b"mani").is_some());
}

#[test]
fn lanes_and_columns_agree_on_whole_paths() {
    let s = scoring();
    for path in ["main.rs", "score_main.rs", "m_a_i_n"] {
        for lanes in [1, 4, 16, 32] {
            assert_eq!(
                score(b"main", path.as_bytes(), &s, lanes) > 0,
                score_scalar(b"main", path.as_bytes(), &s) > 0
            );
        }
    }
    assert_eq!(
        score(b"main.rs", b"main.rs", &s, 16),
        score_scalar(b"main.rs", b"main.rs", &s)
    );
}

#[test]
fn long_needles_are_cut() {
    let s = scoring();
    let needle = vec![b'a'; 100];
    let hay = vec![b'a'; 64];
    assert!(score_scalar(&needle, &hay, &s) > 0);
    assert_eq!(
        score_scalar(&needle, &hay, &s),
        score_scalar(&needle[..64], &hay, &s)
    );
}

#[test]
fn splitting_a_search_does_not_show() {
    let scores: Vec<u32> = (0..120).map(|i| (i * 7 % 40) as u32).collect();
    let hits: Vec<Hit> = (0..120)
        .map(|i| Hit {
            index: i,
            score: (i * 11 % 50) as u16,
            exact: false,
            end_col: 0,
        })
        .collect();
    let gpu = top_k_scores(&scores);
    let cpu = top_k_matches(&hits, 120);
    assert_eq!(gpu.len(), 50);
    assert_eq!(cpu.len(), 50);
    let merged = merge_parts(gpu, cpu);
    let mut all: Vec<(u32, u32)> = scores
        .iter()
        .enumerate()
        .filter(|(_, s)| **s > 0)
        .map(|(i, s)| (*s, i as u32))
        .collect();
    all.extend(hits.iter().map(|h| (h.score as u32, h.index + 120)));
    all.sort_by(|a, b| (b.0, a.1).cmp(&(a.0, b.1)));
    all.truncate(50);
    assert_eq!(merged, all);
    assert_eq!(gpu_share(0), 1);
    assert_eq!(gpu_share(9), 9);
}

#[test]
fn ids_of_the_best_are_listed() {
    assert_eq!(top_k(&[0, 3, 9, 3], 2), [2, 1]);
    assert!(top_k(&[0, 3], 0).is_empty());
}

#[test]
fn scaled_lists_repeat_in_packages() {
    let base = vec!["a.rs".to_string(), "b/c.rs".to_string()];
    assert_eq!(scale(&base, 0), base);
    assert_eq!(scale(&base, 2), base);
    assert_eq!(
        scale(&base, 5),
        ["a.rs", "b/c.rs", "pkg1/a.rs", "pkg1/b/c.rs", "pkg2/a.rs"]
    );
}

#[test]
fn medians_are_taken_of_sorted_times() {
    let mut times = vec![30, 10, 20, 40];
    assert_eq!(median(&mut times), 30);
    assert_eq!(times, [10, 20, 30, 40]);
}

#[test]
fn the_first_matcher_looks_at_half_a_needle() {
    let paths: Vec<String> = (0..130).map(|i| format!("{}", i % 10)).collect();
    let (mut state, words, items) = MatcherState::new(&paths, Kernel::Subgroup);
    assert_eq!(words.len(), 34);
    assert_eq!(words[0], u32::from_le_bytes(*b"0123"));
    assert_eq!(items[129], [129, 1]);
    assert_eq!(state.buffer_sizes(), (520, 2080));
    let plan = state.plan_search(&"n".repeat(40), &scoring(), true);
    assert_eq!(plan.params.needle_len, 32);
    assert_eq!(plan.params.item_count, 130);
    assert_eq!(plan.needle.len(), 64);
    assert_eq!(plan.needle[31], b'n');
    assert_eq!(plan.needle[32], 0);
    assert_eq!(plan.groups, (3, 1));
    assert_eq!(plan.scorer, Scorer::Subgroup);
    assert!(state.uses_subgroup(32));
    assert!(state.note_scores(32, true, &[1, u32::MAX]));
    assert!(!state.uses_subgroup(32));
    let (state, words, _) = MatcherState::new(&[], Kernel::ThreadPerItem);
    assert_eq!(words, [0]);
    assert_eq!(state.buffer_sizes(), (4, 16));
    let plan = state.plan_search("x", &scoring(), true);
    assert_eq!(plan.scorer, Scorer::Item);
}

#[test]
fn gaps_may_cost_all_that_fits() {
    let s = Scoring {
        gap_open_penalty: 65535,
        gap_extend_penalty: 65535,
        ..scoring()
    };
    // No gap is worth its cost: a mismatch behind the first byte costs less.
    let path = [b"a".as_slice(), &vec![b'x'; 32000], b"b"].concat();
    assert_eq!(score_scalar(b"ab", &path, &s), 12 + 16 - 6);
    assert_eq!(score(b"ab", b"axb", &s, 16384), 12 + 16 - 6);
}

#[test]
fn rescanning_survivors_misses_nothing() {
    let paths = ["src/main.rs", "lib/mail.rs", "docs/a.md", "Makefile"];
    let survive = |needle: &[u8], among: &[usize]| -> Vec<usize> {
        among
            .iter()
            .copied()
            .filter(|&i| prefilter_window(needle, paths[i].as_bytes()).is_some())
            .collect()
    };
    let all: Vec<usize> = (0..paths.len()).collect();
    let kept = survive(b"ma", &all);
    assert_eq!(kept, [0, 1, 3]);
    assert_eq!(survive(b"main", &kept), survive(b"main", &all));
    assert_eq!(survive(b"main", &all), [0]);
}
