//! Fuzzy search over directories.

use crate::score::arith;
use crate::score::context;
use crate::score::context::{Score, ScoringContext};
use crate::score::files;
use crate::score::files::fuzzy_parts;
use crate::score::formula;
use crate::score::formula::{eq_ignore_ascii_case, match_start_approx};
use crate::score::hits;
use crate::score::hits::{keep_valid, match_options, match_parts, Hit, MatchOptions};
use crate::score::paginate;
use crate::score::paginate::{sort_and_paginate_dirs, DirRanking};
use crate::score::rows;
use crate::simd_path::ArenaPtr;
use crate::types;
use crate::types::DirItem;
use vstd::prelude::*;

verus! {

/// The arena that holds the path of the directory.
pub open spec fn arena_of<'b>(
    dir: DirItem,
    arena: ArenaPtr<'b>,
    overflow_arena: ArenaPtr<'b>,
) -> ArenaPtr<'b> {
    if dir.layer() != 0 {
        overflow_arena
    } else {
        arena
    }
}

pub open spec fn readable(
    dir: DirItem,
    arena: ArenaPtr<'_>,
    overflow_arena: ArenaPtr<'_>,
) -> bool {
    arena_of(dir, arena, overflow_arena).store matches Some(store) && store.wf()
        && store.names_path(dir.path)
}

/// The path of the directory.
pub open spec fn path_in(
    dir: DirItem,
    arena: ArenaPtr<'_>,
    overflow_arena: ArenaPtr<'_>,
) -> Seq<u8> {
    arena_of(dir, arena, overflow_arena).store->0.path(dir.path)
}

fn read_dir_path(dir: &DirItem, arena: ArenaPtr<'_>, overflow_arena: ArenaPtr<'_>) -> (r: Vec<u8>)
    requires
        readable(*dir, arena, overflow_arena),
    ensures
        r@ == path_in(*dir, arena, overflow_arena),
{
    let from = if dir.is_overflow() {
        overflow_arena
    } else {
        arena
    };
    match from.store {
        Some(store) => dir.path.read(store),
        None => Vec::new(),
    }
}

/// The live rows among the first `n` that meet the constraints.
pub open spec fn live_dirs<'a>(dirs: Seq<DirItem>, context: ScoringContext<'_>, n: int) -> Seq<
    &'a DirItem,
>
    decreases n,
{
    if n <= 0 {
        Seq::empty()
    } else {
        let rest = live_dirs(dirs, context, n - 1);
        if dirs[n - 1].deleted() || (context.kept matches Some(marks) && !marks@[n - 1]) {
            rest
        } else {
            rest.push(&dirs[n - 1])
        }
    }
}

proof fn lemma_live_dirs<'a>(dirs: Seq<DirItem>, context: ScoringContext<'_>, n: int)
    requires
        0 <= n <= dirs.len(),
    ensures
        live_dirs(dirs, context, n).len() <= n,
        forall|i: int|
            0 <= i < live_dirs(dirs, context, n).len() ==> dirs.contains(
                *#[trigger] live_dirs(dirs, context, n)[i],
            ),
    decreases n,
{
    if n > 0 {
        lemma_live_dirs(dirs, context, n - 1);
        assert(dirs.contains(dirs[n - 1]));
    }
}

/// Directories whose files are all gone never surface.
fn collect_live<'a>(dirs: &'a [DirItem], context: &ScoringContext<'_>) -> (r: Vec<&'a DirItem>)
    requires
        rows::constrains(*context, dirs@.len() as int),
    ensures
        r@ == live_dirs(dirs@, *context, dirs@.len() as int),
{
    let mut out: Vec<&'a DirItem> = Vec::new();
    let mut i: usize = 0;
    while i < dirs.len()
        invariant
            i <= dirs@.len(),
            rows::constrains(*context, dirs@.len() as int),
            out@ == live_dirs(dirs@, *context, i as int),
        decreases dirs@.len() - i,
    {
        let kept: bool = match context.kept {
            Some(marks) => marks[i],
            None => true,
        };
        if kept && !dirs[i].is_deleted() {
            out.push(&dirs[i]);
        }
        i += 1;
    }
    out
}

/// The last segment of the path, without its `/`.
pub open spec fn dir_name(path: Seq<u8>, dir: DirItem) -> Seq<u8> {
    let name = path.skip(dir.path.filename_offset as int);
    if name.len() > 0 && name.last() == 47 {
        name.drop_last()
    } else {
        name
    }
}

/// The match landed in the last segment.
pub open spec fn lands_in_name(hit: Hit, dir: DirItem, needle_len: int) -> bool {
    formula::match_start(hit.end_col, needle_len) >= dir.path.filename_offset
}

/// The needle is the name of the directory, but for case.
pub open spec fn is_exact_name(dir: DirItem, path: Seq<u8>, hit: Hit, needle: Seq<u8>) -> bool {
    let n = formula::counted(needle.len() as int);
    lands_in_name(hit, dir, n) && n == dir_name(path, dir).len() && formula::same_folded(
        needle,
        dir_name(path, dir),
    )
}

/// The score of a hit: 40% more where the needle is the name of the directory,
/// about 16% more elsewhere in it.
pub open spec fn score_of(
    dir: DirItem,
    path: Seq<u8>,
    hit: Hit,
    needle: Seq<u8>,
    context: ScoringContext<'_>,
) -> Score {
    let base = hit.score as int;
    let frecency_boost = formula::use_boost(base, dir.max_access_frecency as int);
    let distance = match context.current_file {
        Some(_) => context.distance.penalty_of(path),
        None => 0,
    };
    let exact = is_exact_name(dir, path, hit, needle);
    let lands = lands_in_name(hit, dir, formula::counted(needle.len() as int));
    let bonus = if exact {
        base / 5 * 2
    } else if lands {
        base / 6
    } else {
        0
    };
    Score {
        total: formula::saturating_sum(
            seq![base, frecency_boost, distance as int, bonus],
            4,
        ) as i32,
        base_score: base as i32,
        filename_bonus: bonus as i32,
        frecency_boost: frecency_boost as i32,
        distance_penalty: distance,
        exact_match: exact || hit.exact,
        ..context::blank_score(
            if exact {
                "exact_dirname"
            } else if lands {
                "fuzzy_dirname"
            } else if hit.exact {
                "exact_path"
            } else {
                "fuzzy_path"
            },
        )
    }
}

fn add_up(a: i32, b: i32, c: i32, d: i32) -> (r: i32)
    ensures
        r == formula::saturating_sum(seq![a as int, b as int, c as int, d as int], 4),
{
    proof {
        reveal_with_fuel(formula::saturating_sum, 5);
    }
    let sum: i32 = arith::saturating_add(a, b);
    let sum: i32 = arith::saturating_add(sum, c);
    arith::saturating_add(sum, d)
}

/// The score of a hit.
pub fn score_dir(
    dir: &DirItem,
    path: &[u8],
    hit: &Hit,
    needle: &[u8],
    context: &ScoringContext<'_>,
) -> (r: Score)
    requires
        formula::counted(needle@.len() as int) > 0,
        dir.path.filename_offset <= path@.len(),
    ensures
        r == score_of(*dir, path@, *hit, needle@, *context),
{
    let needle_len: u16 = (needle.len() % 65536) as u16;
    let base_score: i32 = hit.score as i32;
    let frecency_boost: i32 = arith::percent(
        arith::saturating_mul(base_score, dir.max_access_frecency()),
    );
    let distance_penalty: i32 = match context.current_file {
        Some(_) => context.distance.penalty(path),
        None => 0,
    };
    let is_dirname_match: bool = match_start_approx(hit.end_col, needle_len)
        >= dir.last_segment_offset();
    let start: usize = dir.last_segment_offset() as usize;
    let end: usize = if path.len() > start && path[path.len() - 1] == 47 {
        path.len() - 1
    } else {
        path.len()
    };
    let name = vstd::slice::slice_subrange(path, start, end);
    assert(name@ =~= dir_name(path@, *dir));
    let is_exact_dirname: bool = is_dirname_match && needle_len as usize
        == name.len() && eq_ignore_ascii_case(needle, name);
    let filename_bonus: i32 = if is_exact_dirname {
        base_score / 5 * 2
    } else if is_dirname_match {
        base_score / 6
    } else {
        0
    };
    Score {
        total: add_up(base_score, frecency_boost, distance_penalty, filename_bonus),
        base_score,
        filename_bonus,
        special_filename_bonus: 0,
        frecency_boost,
        git_status_boost: 0,
        git_recency_boost: 0,
        distance_penalty,
        current_file_penalty: 0,
        combo_match_boost: 0,
        path_alignment_bonus: 0,
        exact_match: is_exact_dirname || hit.exact,
        match_type: if is_exact_dirname {
            "exact_dirname"
        } else if is_dirname_match {
            "fuzzy_dirname"
        } else if hit.exact {
            "exact_path"
        } else {
            "fuzzy_path"
        },
    }
}

/// The paths of the directories, as text.
pub open spec fn texts_in(
    dirs: Seq<&DirItem>,
    arena: ArenaPtr<'_>,
    overflow_arena: ArenaPtr<'_>,
) -> Seq<Seq<char>> {
    Seq::new(
        dirs.len(),
        |i: int| vstd::utf8::decode_utf8(path_in(*dirs[i], arena, overflow_arena)),
    )
}

pub open spec fn dirs_readable(
    dirs: Seq<&DirItem>,
    arena: ArenaPtr<'_>,
    overflow_arena: ArenaPtr<'_>,
) -> bool {
    forall|i: int| 0 <= i < dirs.len() ==> readable(*#[trigger] dirs[i], arena, overflow_arena)
}

/// Matches the directories against every part of at least two bytes, narrowing
/// the candidates from part to part.
pub fn match_fuzzy_parts_dirs(
    fuzzy_parts: &Vec<&str>,
    working_dirs: &Vec<&DirItem>,
    options: MatchOptions,
    max_threads: usize,
    arena: ArenaPtr<'_>,
    overflow_arena: ArenaPtr<'_>,
) -> (r: Vec<Hit>)
    requires
        working_dirs@.len() < u32::MAX,
        dirs_readable(working_dirs@, arena, overflow_arena),
    ensures
        hits::hits_fit(r@, working_dirs@.len()),
        ({
            let valid = hits::valid_parts(fuzzy_parts@, fuzzy_parts@.len() as int);
            if valid.len() == 0 {
                r@.len() == 0
            } else {
                hits::matches_parts(
                    r@,
                    valid,
                    texts_in(working_dirs@, arena, overflow_arena),
                    options,
                    max_threads,
                )
            }
        }),
{
    let valid = keep_valid(fuzzy_parts.as_slice());
    if valid.len() == 0 {
        return Vec::new();
    }
    let mut texts: Vec<String> = Vec::new();
    let mut i: usize = 0;
    while i < working_dirs.len()
        invariant
            i <= working_dirs@.len(),
            dirs_readable(working_dirs@, arena, overflow_arena),
            texts@.len() == i,
            forall|k: int|
                0 <= k < i ==> (#[trigger] texts@[k])@ == texts_in(
                    working_dirs@,
                    arena,
                    overflow_arena,
                )[k],
        decreases working_dirs@.len() - i,
    {
        assert(readable(*working_dirs@[i as int], arena, overflow_arena));
        let text = types::text_of(read_dir_path(working_dirs[i], arena, overflow_arena));
        proof {
            vstd::utf8::encode_utf8_decode_utf8(text@);
        }
        texts.push(text);
        i += 1;
    }
    assert(hits::texts_of(texts@) =~= texts_in(working_dirs@, arena, overflow_arena));
    match_parts(&valid, &texts, options, max_threads)
}

/// Each hit with its score.
pub open spec fn scored_hits<'a>(
    dirs: Seq<&'a DirItem>,
    found: Seq<Hit>,
    needle: Seq<u8>,
    context: ScoringContext<'_>,
    arena: ArenaPtr<'_>,
    overflow_arena: ArenaPtr<'_>,
) -> Seq<(&'a DirItem, Score)> {
    Seq::new(
        found.len(),
        |i: int|
            {
                let dir = dirs[found[i].index as int];
                (
                    dir,
                    score_of(
                        *dir,
                        path_in(*dir, arena, overflow_arena),
                        found[i],
                        needle,
                        context,
                    ),
                )
            },
    )
}

/// Scores every hit.
pub fn score_hits<'a>(
    working_dirs: &Vec<&'a DirItem>,
    found: &Vec<Hit>,
    needle: &[u8],
    context: &ScoringContext<'_>,
    arena: ArenaPtr<'_>,
    overflow_arena: ArenaPtr<'_>,
) -> (r: Vec<(&'a DirItem, Score)>)
    requires
        formula::counted(needle@.len() as int) > 0,
        hits::hits_fit(found@, working_dirs@.len()),
        dirs_readable(working_dirs@, arena, overflow_arena),
    ensures
        r@ == scored_hits(working_dirs@, found@, needle@, *context, arena, overflow_arena),
{
    let mut out: Vec<(&'a DirItem, Score)> = Vec::new();
    let mut i: usize = 0;
    while i < found.len()
        invariant
            i <= found@.len(),
            formula::counted(needle@.len() as int) > 0,
            hits::hits_fit(found@, working_dirs@.len()),
            dirs_readable(working_dirs@, arena, overflow_arena),
            out@.len() == i,
            forall|k: int|
                0 <= k < i ==> #[trigger] out@[k] == scored_hits(
                    working_dirs@,
                    found@,
                    needle@,
                    *context,
                    arena,
                    overflow_arena,
                )[k],
        decreases found@.len() - i,
    {
        let hit: Hit = found[i];
        assert(found@[i as int].index < working_dirs@.len());
        let dir = working_dirs[hit.index as usize];
        assert(readable(*working_dirs@[hit.index as int], arena, overflow_arena));
        let path = read_dir_path(dir, arena, overflow_arena);
        out.push((dir, score_dir(dir, path.as_slice(), &hit, needle, context)));
        i += 1;
    }
    assert(out@ =~= scored_hits(working_dirs@, found@, needle@, *context, arena, overflow_arena));
    out
}

/// Each directory with how often it is used.
pub open spec fn frecency_rows<'a>(dirs: Seq<&'a DirItem>) -> Seq<(&'a DirItem, Score)> {
    Seq::new(
        dirs.len(),
        |i: int|
            (
                dirs[i],
                Score {
                    total: dirs[i].max_access_frecency,
                    frecency_boost: dirs[i].max_access_frecency,
                    ..context::blank_score("frecency")
                },
            ),
    )
}

/// Ranks directories by how often they are used.
pub fn score_dirs_by_frecency<'a>(dirs: &Vec<&'a DirItem>, context: &ScoringContext<'_>) -> (r: (
    Vec<&'a DirItem>,
    Vec<Score>,
    usize,
))
    ensures
        r.2 == dirs@.len(),
        paginate::is_page(
            frecency_rows(dirs@),
            DirRanking {  },
            context.pagination,
            r.0@,
            r.1@,
        ),
{
    let mut results: Vec<(&'a DirItem, Score)> = Vec::new();
    let mut i: usize = 0;
    while i < dirs.len()
        invariant
            i <= dirs@.len(),
            results@.len() == i,
            forall|k: int| 0 <= k < i ==> #[trigger] results@[k] == frecency_rows(dirs@)[k],
        decreases dirs@.len() - i,
    {
        let frecency: i32 = dirs[i].max_access_frecency();
        results.push(
            (
                dirs[i],
                Score {
                    total: frecency,
                    base_score: 0,
                    filename_bonus: 0,
                    special_filename_bonus: 0,
                    frecency_boost: frecency,
                    git_status_boost: 0,
                    git_recency_boost: 0,
                    distance_penalty: 0,
                    current_file_penalty: 0,
                    combo_match_boost: 0,
                    path_alignment_bonus: 0,
                    exact_match: false,
                    match_type: "frecency",
                },
            ),
        );
        i += 1;
    }
    assert(results@ =~= frecency_rows(dirs@));
    sort_and_paginate_dirs(results, context.pagination)
}

/// The parts that directories are matched against.
pub open spec fn dir_parts<'q>(context: ScoringContext<'q>) -> Seq<&'q str> {
    match files::query_parts(*context.query) {
        Some(parts) => hits::valid_parts(parts, parts.len() as int),
        None => Seq::empty(),
    }
}

/// What a search of directories for `valid` parts gives.
pub open spec fn is_dir_search<'a>(
    items: Seq<&'a DirItem>,
    scores: Seq<Score>,
    total: int,
    dirs: Seq<&'a DirItem>,
    valid: Seq<&str>,
    context: ScoringContext<'_>,
    arena: ArenaPtr<'_>,
    overflow_arena: ArenaPtr<'_>,
) -> bool {
    let options = hits::options_of(context.max_typos, hits::any_upper(valid));
    let needle = vstd::utf8::encode_utf8(valid[0]@);
    exists|found: Seq<Hit>| #[trigger]
        hits::matches_parts(
            found,
            valid,
            texts_in(dirs, arena, overflow_arena),
            options,
            context.max_threads,
        ) && hits::hits_fit(found, dirs.len()) && total == found.len() && paginate::is_page(
            scored_hits(dirs, found, needle, context, arena, overflow_arena),
            DirRanking {  },
            context.pagination,
            items,
            scores,
        )
}

proof fn lemma_valid_again<'a>(parts: Seq<&'a str>, n: int)
    requires
        0 <= n <= parts.len(),
    ensures
        forall|i: int|
            0 <= i < hits::valid_parts(parts, n).len() ==> hits::byte_len(
                (#[trigger] hits::valid_parts(parts, n)[i])@,
            ) >= 2,
    decreases n,
{
    if n > 0 {
        lemma_valid_again(parts, n - 1);
        let rest = hits::valid_parts(parts, n - 1);
        let all = hits::valid_parts(parts, n);
        assert forall|i: int| 0 <= i < all.len() implies hits::byte_len((#[trigger] all[i])@)
            >= 2 by {
            if i < rest.len() {
                assert(all[i] == rest[i]);
            }
        }
    }
}

/// Matches and scores directories against a fuzzy query and returns a page of
/// the best; by how often they are used where there is nothing to match.
pub fn fuzzy_match_and_score_dirs<'a>(
    dirs: &'a [DirItem],
    context: &ScoringContext<'_>,
    arena: ArenaPtr<'_>,
    overflow_arena: ArenaPtr<'_>,
) -> (r: (Vec<&'a DirItem>, Vec<Score>, usize))
    requires
        rows::constrains(*context, dirs@.len() as int),
        dirs@.len() < u32::MAX,
        dir_parts(*context).len() > 0 ==> {
            &&& formula::counted(hits::byte_len(dir_parts(*context)[0]@)) > 0
            &&& forall|i: int|
                0 <= i < dirs@.len() ==> readable(#[trigger] dirs@[i], arena, overflow_arena)
        },
    ensures
        ({
            let live = live_dirs(dirs@, *context, dirs@.len() as int);
            let valid = dir_parts(*context);
            if valid.len() == 0 {
                &&& r.2 == live.len()
                &&& paginate::is_page(
                    frecency_rows(live),
                    DirRanking {  },
                    context.pagination,
                    r.0@,
                    r.1@,
                )
            } else {
                is_dir_search(
                    r.0@,
                    r.1@,
                    r.2 as int,
                    live,
                    valid,
                    *context,
                    arena,
                    overflow_arena,
                )
            }
        }),
{
    let working_dirs = collect_live(dirs, context);
    let parts = match fuzzy_parts(context.query) {
        Some(parts) => parts,
        None => {
            return score_dirs_by_frecency(&working_dirs, context);
        },
    };
    let valid = keep_valid(parts.as_slice());
    if valid.len() == 0 {
        return score_dirs_by_frecency(&working_dirs, context);
    }
    proof {
        lemma_live_dirs(dirs@, *context, dirs@.len() as int);
        lemma_valid_again(parts@, parts@.len() as int);
        assert forall|i: int| 0 <= i < working_dirs@.len() implies readable(
            *#[trigger] working_dirs@[i],
            arena,
            overflow_arena,
        ) by {
            assert(dirs@.contains(*working_dirs@[i]));
            let k = choose|k: int| 0 <= k < dirs@.len() && dirs@[k] == *working_dirs@[i];
            assert(readable(dirs@[k], arena, overflow_arena));
        }
        assert(hits::byte_len(hits::valid_parts(parts@, parts@.len() as int)[0]@) >= 2);
    }
    let options = match_options(valid.as_slice(), context.max_typos);
    let found = match_fuzzy_parts_dirs(
        &parts,
        &working_dirs,
        options,
        context.max_threads,
        arena,
        overflow_arena,
    );
    let needle = valid[0].as_bytes();
    let results = score_hits(&working_dirs, &found, needle, context, arena, overflow_arena);
    let page = sort_and_paginate_dirs(results, context.pagination);
    assert(hits::matches_parts(
        found@,
        valid@,
        texts_in(working_dirs@, arena, overflow_arena),
        options,
        context.max_threads,
    ));
    page
}

} // verus!
