//! Ranking without a fuzzy query.

use crate::bytes;
use crate::score::arith;
use crate::score::context;
use crate::score::context::{PaginationArgs, Score, ScoringContext};
use crate::score::paginate;
use crate::score::paginate::{sort_and_paginate, FileRanking, Totalled};
use crate::score::rows;
use crate::score::rows::{filter_by_constraints, read_file_path, FileItems};
use crate::simd_path::ArenaPtr;
use crate::sorting;
use crate::sorting::Ranking;
use crate::types::FileItem;
use vstd::prelude::*;

verus! {

/// The file is the one that is open right now.
pub open spec fn is_current(
    file: FileItem,
    context: ScoringContext<'_>,
    arena: ArenaPtr<'_>,
) -> bool {
    context.current_file matches Some(current) && vstd::utf8::encode_utf8(current@)
        == rows::path_in(arena, file)
}

/// Where the current file matters, the paths of these files can be read.
pub open spec fn can_compare(
    file: FileItem,
    context: ScoringContext<'_>,
    arena: ArenaPtr<'_>,
) -> bool {
    context.current_file is Some ==> rows::readable(arena, file)
}

/// Takes `base_score` off the file that is open right now.
pub fn calculate_current_file_penalty(
    file: &FileItem,
    base_score: i32,
    context: &ScoringContext<'_>,
    arena: ArenaPtr<'_>,
) -> (r: i32)
    requires
        base_score > i32::MIN,
        can_compare(*file, *context, arena),
    ensures
        r == (if is_current(*file, *context, arena) {
            -base_score
        } else {
            0
        }),
        base_score >= 0 ==> r <= 0,
        r != 0 ==> context.current_file is Some,
{
    if let Some(current) = context.current_file {
        let path = read_file_path(arena, file);
        if bytes::same_bytes(path.as_slice(), current.as_bytes()) {
            return -base_score;
        }
    }
    0
}

pub open spec fn frecency_boost(file: FileItem) -> int {
    file.access_frecency_score + file.modification_frecency_score * 4
}

/// What a file is worth without a fuzzy query.
pub open spec fn frecency_score_of(file: FileItem, current: bool) -> Score {
    let boost = frecency_boost(file);
    let git = if file.git_modified {
        arith::quotient(boost * 15, 100)
    } else {
        0
    };
    let penalty = if current {
        -boost
    } else {
        0
    };
    Score {
        total: (boost + git + file.git_recency_score + penalty) as i32,
        frecency_boost: boost as i32,
        git_status_boost: git as i32,
        git_recency_boost: file.git_recency_score as i32,
        current_file_penalty: penalty as i32,
        ..context::blank_score("frecency")
    }
}

pub fn frecency_score(file: &FileItem, context: &ScoringContext<'_>, arena: ArenaPtr<'_>) -> (r:
    Score)
    requires
        can_compare(*file, *context, arena),
    ensures
        r == frecency_score_of(*file, is_current(*file, *context, arena)),
{
    let frecency_boost: i32 = file.access_frecency_score as i32
        + file.modification_frecency_score as i32 * 4;
    // Modified files get a boost without a query too.
    let git_status_boost: i32 = if file.git_modified {
        arith::percent(frecency_boost * 15)
    } else {
        0
    };
    let git_recency_boost: i32 = file.git_recency_score as i32;
    let current_file_penalty: i32 = calculate_current_file_penalty(
        file,
        frecency_boost,
        context,
        arena,
    );
    let total: i32 = frecency_boost + git_status_boost + git_recency_boost + current_file_penalty;
    Score {
        total,
        base_score: 0,
        filename_bonus: 0,
        special_filename_bonus: 0,
        frecency_boost,
        git_status_boost,
        git_recency_boost,
        distance_penalty: 0,
        current_file_penalty,
        combo_match_boost: 0,
        path_alignment_bonus: 0,
        exact_match: false,
        match_type: "frecency",
    }
}

pub fn frecency_total(file: &FileItem, context: &ScoringContext<'_>, arena: ArenaPtr<'_>) -> (r:
    i32)
    requires
        can_compare(*file, *context, arena),
    ensures
        r == frecency_score_of(*file, is_current(*file, *context, arena)).total,
{
    frecency_score(file, context, arena).total
}

/// Each row with what it is worth.
pub open spec fn scored_rows<'a>(
    live: Seq<&'a FileItem>,
    context: ScoringContext<'_>,
    arena: ArenaPtr<'_>,
) -> Seq<(&'a FileItem, Score)> {
    Seq::new(
        live.len(),
        |i: int| (live[i], frecency_score_of(*live[i], is_current(*live[i], context, arena))),
    )
}

/// Each row with the total of what it is worth.
pub open spec fn totals_of<'a>(scored: Seq<(&'a FileItem, Score)>) -> Seq<(&'a FileItem, i32)> {
    Seq::new(scored.len(), |i: int| (scored[i].0, scored[i].1.total))
}

/// Appends the live files with their totals.
pub fn frecency_totals<'a>(
    files: &FileItems<'a>,
    context: &ScoringContext<'_>,
    arena: ArenaPtr<'_>,
    out: &mut Vec<(&'a FileItem, i32)>,
)
    requires
        forall|i: int|
            0 <= i < files.rows().len() ==> can_compare(
                *#[trigger] files.rows()[i],
                *context,
                arena,
            ),
    ensures
        final(out)@ == old(out)@ + totals_of(
            scored_rows(
                rows::live_rows(files.rows(), files.rows().len() as int),
                *context,
                arena,
            ),
        ),
{
    let ghost before = out@;
    let mut i: usize = 0;
    assert(out@ =~= before + totals_of(
        scored_rows(rows::live_rows(files.rows(), 0), *context, arena),
    ));
    while i < files.len()
        invariant
            i <= files.rows().len(),
            forall|k: int|
                0 <= k < files.rows().len() ==> can_compare(
                    *#[trigger] files.rows()[k],
                    *context,
                    arena,
                ),
            out@ == before + totals_of(
                scored_rows(rows::live_rows(files.rows(), i as int), *context, arena),
            ),
        decreases files.rows().len() - i,
    {
        let file = files.index(i);
        let ghost held = rows::live_rows(files.rows(), i as int);
        if !file.is_deleted() {
            let ghost had = out@;
            out.push((file, frecency_total(file, context, arena)));
            assert(out@ =~= before + totals_of(
                scored_rows(held.push(file), *context, arena),
            ));
        }
        i += 1;
    }
}

/// The live files with what they are worth.
pub fn frecency_scores<'a>(
    files: &FileItems<'a>,
    context: &ScoringContext<'_>,
    arena: ArenaPtr<'_>,
) -> (r: Vec<(&'a FileItem, Score)>)
    requires
        forall|i: int|
            0 <= i < files.rows().len() ==> can_compare(
                *#[trigger] files.rows()[i],
                *context,
                arena,
            ),
    ensures
        r@ == scored_rows(
            rows::live_rows(files.rows(), files.rows().len() as int),
            *context,
            arena,
        ),
{
    let mut totals: Vec<(&'a FileItem, i32)> = Vec::new();
    frecency_totals(files, context, arena, &mut totals);
    let ghost live = rows::live_rows(files.rows(), files.rows().len() as int);
    proof {
        rows::lemma_live_rows(files.rows(), files.rows().len() as int);
    }
    let mut out: Vec<(&'a FileItem, Score)> = Vec::new();
    let mut i: usize = 0;
    while i < totals.len()
        invariant
            i <= totals@.len(),
            totals@ == totals_of(scored_rows(live, *context, arena)),
            forall|k: int|
                0 <= k < live.len() ==> can_compare(*#[trigger] live[k], *context, arena),
            out@ == scored_rows(live, *context, arena).take(i as int),
        decreases totals@.len() - i,
    {
        let file = totals[i].0;
        assert(file == live[i as int]);
        out.push((file, frecency_score(file, context, arena)));
        assert(out@ =~= scored_rows(live, *context, arena).take(i + 1));
        i += 1;
    }
    assert(out@ =~= scored_rows(live, *context, arena));
    out
}

/// The live rows of the table that meet the constraints, each with what it is
/// worth: overlays first, then the base scan.
pub open spec fn frecency_results<'a>(
    files: Seq<FileItem>,
    context: ScoringContext<'_>,
    base_count: int,
    base_arena: ArenaPtr<'_>,
    overflow_arena: ArenaPtr<'_>,
) -> Seq<(&'a FileItem, Score)> {
    let over = rows::kept_rows(files.skip(base_count), context, base_count);
    let base = rows::kept_rows(files.take(base_count), context, 0);
    scored_rows(rows::live_rows(over, over.len() as int), context, overflow_arena) + scored_rows(
        rows::live_rows(base, base.len() as int),
        context,
        base_arena,
    )
}

proof fn lemma_totals_of_sum<'a>(a: Seq<(&'a FileItem, Score)>, b: Seq<(&'a FileItem, Score)>)
    ensures
        totals_of(a) + totals_of(b) == totals_of(a + b),
{
    assert(totals_of(a) + totals_of(b) =~= totals_of(a + b));
}

/// Ranking by the totals alone is ranking by the scores.
proof fn lemma_totals_rank<'a>(scored: Seq<(&'a FileItem, Score)>, order: Seq<usize>)
    requires
        sorting::is_stable_order(totals_of(scored), FileRanking {  }, order),
    ensures
        sorting::is_stable_order(scored, FileRanking {  }, order),
{
    let totals = totals_of(scored);
    let ranking = FileRanking {  };
    assert forall|x: int, y: int| 0 <= x < y < order.len() implies sorting::comes_before(
        scored,
        ranking,
        #[trigger] order[x],
        #[trigger] order[y],
    ) by {
        assert(sorting::comes_before(totals, ranking, order[x], order[y]));
        let a = order[x] as int;
        let b = order[y] as int;
        assert(totals[a] == (scored[a].0, scored[a].1.total));
        assert(totals[b] == (scored[b].0, scored[b].1.total));
        assert(ranking.le(totals[a], totals[b]) == ranking.le(scored[a], scored[b]));
        assert(ranking.le(totals[b], totals[a]) == ranking.le(scored[b], scored[a]));
    }
}

/// A row of the table is an overlay's exactly where it stands behind the base
/// scan.
pub open spec fn split_by_layer(files: Seq<FileItem>, base_count: int) -> bool {
    forall|i: int| 0 <= i < files.len() ==> ((#[trigger] files[i]).layer() == 0 <==> i < base_count)
}

proof fn lemma_results_score<'a>(
    files: Seq<FileItem>,
    context: ScoringContext<'_>,
    base_count: int,
    base_arena: ArenaPtr<'_>,
    overflow_arena: ArenaPtr<'_>,
    i: int,
)
    requires
        0 <= base_count <= files.len(),
        0 <= i < frecency_results(
            files,
            context,
            base_count,
            base_arena,
            overflow_arena,
        ).len(),
        context.current_file is Some ==> split_by_layer(files, base_count),
        forall|k: int|
            0 <= k < files.len() ==> can_compare(
                #[trigger] files[k],
                context,
                if k < base_count {
                    base_arena
                } else {
                    overflow_arena
                },
            ),
    ensures
        ({
            let (file, score) = frecency_results(
                files,
                context,
                base_count,
                base_arena,
                overflow_arena,
            )[i];
            let arena = if file.layer() != 0 {
                overflow_arena
            } else {
                base_arena
            };
            &&& can_compare(*file, context, arena)
            &&& score == frecency_score_of(*file, is_current(*file, context, arena))
        }),
{
    let tail = files.skip(base_count);
    let head = files.take(base_count);
    let over = rows::kept_rows(tail, context, base_count);
    let base = rows::kept_rows(head, context, 0);
    let lo = rows::live_rows(over, over.len() as int);
    let lb = rows::live_rows(base, base.len() as int);
    rows::lemma_kept_rows(tail, context, base_count);
    rows::lemma_kept_rows(head, context, 0);
    rows::lemma_live_rows(over, over.len() as int);
    rows::lemma_live_rows(base, base.len() as int);
    if i < lo.len() {
        assert(over.contains(lo[i]));
        let x = choose|x: int| 0 <= x < over.len() && over[x] == lo[i];
        assert(tail.contains(*over[x]));
        let y = choose|y: int| 0 <= y < tail.len() && tail[y] == *over[x];
        assert(files[base_count + y] == *lo[i]);
    } else {
        let j = i - lo.len();
        assert(base.contains(lb[j]));
        let x = choose|x: int| 0 <= x < base.len() && base[x] == lb[j];
        assert(head.contains(*base[x]));
        let y = choose|y: int| 0 <= y < head.len() && head[y] == *base[x];
        assert(files[y] == *lb[j]);
    }
}

/// Ranks on `(file, total)` pairs and works out the full score only for the
/// page.
pub fn rank_by_frecency<'a>(
    files: &'a [FileItem],
    context: &ScoringContext<'_>,
    base_count: usize,
    base_arena: ArenaPtr<'_>,
    overflow_arena: ArenaPtr<'_>,
) -> (r: (Vec<&'a FileItem>, Vec<Score>, usize))
    requires
        rows::constrains(*context, files@.len() as int),
        context.current_file is Some ==> split_by_layer(files@, base_count as int),
        forall|k: int|
            0 <= k < files@.len() ==> can_compare(
                #[trigger] files@[k],
                *context,
                if k < base_count {
                    base_arena
                } else {
                    overflow_arena
                },
            ),
    ensures
        ({
            let count = if base_count < files@.len() {
                base_count as int
            } else {
                files@.len() as int
            };
            let results = frecency_results(
                files@,
                *context,
                count,
                base_arena,
                overflow_arena,
            );
            &&& r.2 == results.len()
            &&& paginate::is_page(results, FileRanking {  }, context.pagination, r.0@, r.1@)
        }),
{
    let count: usize = if base_count < files.len() {
        base_count
    } else {
        files.len()
    };
    let ghost results = frecency_results(
        files@,
        *context,
        count as int,
        base_arena,
        overflow_arena,
    );
    let mut totals: Vec<(&'a FileItem, i32)> = Vec::new();
    let over = vstd::slice::slice_subrange(files, count, files.len());
    let base = vstd::slice::slice_subrange(files, 0, count);
    assert(over@ =~= files@.skip(count as int));
    assert(base@ =~= files@.take(count as int));
    add_totals(over, context, count, overflow_arena, &mut totals);
    add_totals(base, context, 0, base_arena, &mut totals);
    proof {
        let o = rows::kept_rows(over@, *context, count as int);
        let b = rows::kept_rows(base@, *context, 0);
        lemma_totals_of_sum(
            scored_rows(rows::live_rows(o, o.len() as int), *context, overflow_arena),
            scored_rows(rows::live_rows(b, b.len() as int), *context, base_arena),
        );
        assert(totals@ =~= totals_of(results));
    }
    let (items, page_totals, total_matched) = sort_and_paginate(totals, context.pagination);
    let ghost order = choose|order: Seq<usize>| #[trigger]
        sorting::is_stable_order(totals_of(results), FileRanking {  }, order)
            && paginate::reads_page(
            totals_of(results),
            order,
            context.pagination.offset as int,
            items@,
            page_totals@,
        );
    let mut scores: Vec<Score> = Vec::new();
    let mut i: usize = 0;
    while i < items.len()
        invariant
            i <= items@.len(),
            count <= files@.len(),
            count <= base_count,
            count == files@.len() || count == base_count,
            scores@.len() == i,
            results == frecency_results(
                files@,
                *context,
                count as int,
                base_arena,
                overflow_arena,
            ),
            items@.len() == paginate::page_len(results.len() as int, context.pagination),
            items@.len() > 0 ==> sorting::is_stable_order(
                totals_of(results),
                FileRanking {  },
                order,
            ) && paginate::reads_page(
                totals_of(results),
                order,
                context.pagination.offset as int,
                items@,
                page_totals@,
            ),
            context.current_file is Some ==> split_by_layer(files@, base_count as int),
            forall|k: int|
                0 <= k < files@.len() ==> can_compare(
                    #[trigger] files@[k],
                    *context,
                    if k < base_count {
                        base_arena
                    } else {
                        overflow_arena
                    },
                ),
            forall|k: int|
                0 <= k < i ==> #[trigger] scores@[k] == results[order[context.pagination.offset
                    + k] as int].1,
        decreases items@.len() - i,
    {
        let file = items[i];
        let arena = if file.is_overflow() {
            overflow_arena
        } else {
            base_arena
        };
        proof {
            let at = order[context.pagination.offset + i] as int;
            assert(items@[i as int] == totals_of(results)[at].0);
            lemma_results_score(
                files@,
                *context,
                count as int,
                base_arena,
                overflow_arena,
                at,
            );
        }
        scores.push(frecency_score(file, context, arena));
        i += 1;
    }
    proof {
        if items@.len() > 0 {
            lemma_totals_rank(results, order);
            assert(paginate::reads_page(
                results,
                order,
                context.pagination.offset as int,
                items@,
                scores@,
            )) by {
                assert forall|k: int| 0 <= k < items@.len() implies #[trigger] items@[k]
                    == results[order[context.pagination.offset + k] as int].0 && scores@[k]
                    == results[order[context.pagination.offset + k] as int].1 by {
                    let at = order[context.pagination.offset + k] as int;
                    assert(items@[k] == totals_of(results)[at].0);
                    assert(scores@[k] == results[at].1);
                }
            }
        }
    }
    (items, scores, total_matched)
}

/// Appends the totals of a part of the table.
fn add_totals<'a>(
    part: &'a [FileItem],
    context: &ScoringContext<'_>,
    at: usize,
    arena: ArenaPtr<'_>,
    totals: &mut Vec<(&'a FileItem, i32)>,
)
    requires
        rows::constrains(*context, at + part@.len()),
        forall|k: int|
            0 <= k < part@.len() ==> can_compare(#[trigger] part@[k], *context, arena),
    ensures
        ({
            let kept = rows::kept_rows(part@, *context, at as int);
            final(totals)@ == old(totals)@ + totals_of(
                scored_rows(rows::live_rows(kept, kept.len() as int), *context, arena),
            )
        }),
{
    let ghost kept = rows::kept_rows(part@, *context, at as int);
    let ghost before = totals@;
    proof {
        rows::lemma_kept_rows(part@, *context, at as int);
    }
    match filter_by_constraints(part, context, at) {
        Some(working_files) => {
            assert forall|i: int|
                0 <= i < working_files.rows().len() implies can_compare(
                *#[trigger] working_files.rows()[i],
                *context,
                arena,
            ) by {
                assert(part@.contains(*kept[i]));
                let k = choose|k: int| 0 <= k < part@.len() && part@[k] == *kept[i];
                assert(can_compare(part@[k], *context, arena));
            }
            frecency_totals(&working_files, context, arena, totals);
        },
        None => {
            assert(kept =~= Seq::empty());
            assert(totals@ =~= before + totals_of(
                scored_rows(rows::live_rows(kept, 0), *context, arena),
            ));
        },
    }
}

/// What the rows among the first `n` are is not told by the rows behind them.
proof fn lemma_marked_front<'a>(
    a: Seq<FileItem>,
    b: Seq<FileItem>,
    marks: Seq<bool>,
    n: int,
)
    requires
        n <= a.len(),
        n <= b.len(),
        forall|i: int| 0 <= i < n ==> a[i] == b[i],
    ensures
        rows::marked_rows(a, marks, 0, n) == rows::marked_rows(b, marks, 0, n),
    decreases n,
{
    if n > 0 {
        lemma_marked_front(a, b, marks, n - 1);
    }
}

proof fn lemma_marked_split<'a>(files: Seq<FileItem>, marks: Seq<bool>, count: int, n: int)
    requires
        0 <= count <= n <= files.len(),
    ensures
        rows::marked_rows(files, marks, 0, n) == rows::marked_rows(
            files.take(count),
            marks,
            0,
            count,
        ) + rows::marked_rows(files.skip(count), marks, count, n - count),
    decreases n,
{
    let front = rows::marked_rows(files.take(count), marks, 0, count);
    if n == count {
        lemma_marked_front(files, files.take(count), marks, count);
        assert(front + rows::marked_rows(files.skip(count), marks, count, 0) =~= front);
    } else {
        lemma_marked_split(files, marks, count, n - 1);
        let back = rows::marked_rows(files.skip(count), marks, count, n - 1 - count);
        assert(files.skip(count)[n - 1 - count] == files[n - 1]);
        assert(front + back.push(&files[n - 1]) =~= (front + back).push(&files[n - 1]));
    }
}

/// The rows that are kept of the two parts of a table are those of the whole.
proof fn lemma_kept_split<'a>(files: Seq<FileItem>, context: ScoringContext<'_>, count: int)
    requires
        0 <= count <= files.len(),
    ensures
        rows::kept_rows(files, context, 0) == rows::kept_rows(files.take(count), context, 0)
            + rows::kept_rows(files.skip(count), context, count),
{
    match context.kept {
        None => {
            assert(rows::kept_rows(files, context, 0) =~= rows::kept_rows(
                files.take(count),
                context,
                0,
            ) + rows::kept_rows(files.skip(count), context, count));
        },
        Some(marks) => {
            lemma_marked_split(files, marks@, count, files.len() as int);
        },
    }
}

proof fn lemma_live_front<'a>(a: Seq<&'a FileItem>, b: Seq<&'a FileItem>, n: int)
    requires
        n <= a.len(),
        n <= b.len(),
        forall|i: int| 0 <= i < n ==> a[i] == b[i],
    ensures
        rows::live_rows(a, n) == rows::live_rows(b, n),
    decreases n,
{
    if n > 0 {
        lemma_live_front(a, b, n - 1);
    }
}

proof fn lemma_live_split<'a>(a: Seq<&'a FileItem>, b: Seq<&'a FileItem>, n: int)
    requires
        0 <= n <= b.len(),
    ensures
        rows::live_rows(a + b, a.len() + n) == rows::live_rows(a, a.len() as int)
            + rows::live_rows(b, n),
    decreases n,
{
    let front = rows::live_rows(a, a.len() as int);
    if n == 0 {
        lemma_live_front(a + b, a, a.len() as int);
        assert(front + rows::live_rows(b, 0) =~= front);
    } else {
        lemma_live_split(a, b, n - 1);
        assert((a + b)[a.len() + n - 1] == b[n - 1]);
        let back = rows::live_rows(b, n - 1);
        assert(front + back.push(b[n - 1]) =~= (front + back).push(b[n - 1]));
    }
}

/// No two results rank level.
pub open spec fn keys_differ<'a>(results: Seq<(&'a FileItem, Score)>) -> bool {
    forall|i: int, j: int|
        0 <= i < j < results.len() ==> (#[trigger] results[i]).1.total != (
        #[trigger] results[j]).1.total || results[i].0.modified != results[j].0.modified
}

/// Where the entry at `i` of one half behind the other stands when the halves
/// change places.
spec fn turned(i: int, first: int, second: int) -> int {
    if i < first {
        second + i
    } else {
        i - first
    }
}

proof fn lemma_turned_page<'a>(
    first: Seq<(&'a FileItem, Score)>,
    second: Seq<(&'a FileItem, Score)>,
    page: PaginationArgs,
    items: Seq<&'a FileItem>,
    scores: Seq<Score>,
)
    requires
        first.len() + second.len() <= usize::MAX,
        keys_differ(second + first),
        paginate::is_page(first + second, FileRanking {  }, page, items, scores),
    ensures
        paginate::is_page(second + first, FileRanking {  }, page, items, scores),
{
    if items.len() > 0 {
        let x = first + second;
        let y = second + first;
        let n = first.len() as int;
        let m = second.len() as int;
        let ranking = FileRanking {  };
        let a = choose|order: Seq<usize>| #[trigger]
            sorting::is_stable_order(x, ranking, order) && paginate::reads_page(
                x,
                order,
                page.offset as int,
                items,
                scores,
            );
        let b = Seq::new(a.len(), |k: int| turned(a[k] as int, n, m) as usize);
        assert forall|k: int| 0 <= k < a.len() implies (#[trigger] b[k]) < y.len() && y[b[k] as int]
            == x[a[k] as int] by {
            assert(a[k] < x.len());
        }
        assert forall|i: int, j: int| 0 <= i < j < b.len() implies #[trigger] b[i]
            != #[trigger] b[j] by {
            assert(a[i] != a[j]);
            assert(a[i] < x.len() && a[j] < x.len());
        }
        assert forall|i: int, j: int| 0 <= i < j < b.len() implies sorting::comes_before(
            y,
            ranking,
            #[trigger] b[i],
            #[trigger] b[j],
        ) by {
            assert(sorting::comes_before(x, ranking, a[i], a[j]));
            let p = b[i] as int;
            let q = b[j] as int;
            assert(b[i] != b[j]);
            if p < q {
                assert(y[p].1.total != y[q].1.total || y[p].0.modified != y[q].0.modified);
            } else {
                assert(y[q].1.total != y[p].1.total || y[q].0.modified != y[p].0.modified);
            }
        }
        assert(sorting::is_stable_order(y, ranking, b));
        assert(paginate::reads_page(y, b, page.offset as int, items, scores)) by {
            assert forall|k: int| 0 <= k < items.len() implies #[trigger] items[k]
                == y[b[page.offset + k] as int].0 && scores[k] == y[b[page.offset + k] as int].1 by {
                assert(y[b[page.offset + k] as int] == x[a[page.offset + k] as int]);
                assert(items[k] == x[a[page.offset + k] as int].0);
                assert(scores[k] == x[a[page.offset + k] as int].1);
            }
        }
    }
}

/// Where no two files rank level, the page is that of the whole table's
/// scores, wherever the base scan ends; it shows live files only.
pub proof fn law_base_count_does_not_show<'a>(
    files: Seq<FileItem>,
    context: ScoringContext<'_>,
    base_count: int,
    arena: ArenaPtr<'_>,
    items: Seq<&'a FileItem>,
    scores: Seq<Score>,
)
    requires
        0 <= base_count <= files.len() <= usize::MAX,
        keys_differ(frecency_results(files, context, files.len() as int, arena, arena)),
        paginate::is_page(
            frecency_results(files, context, base_count, arena, arena),
            FileRanking {  },
            context.pagination,
            items,
            scores,
        ),
    ensures
        ({
            let kept = rows::kept_rows(files, context, 0);
            let all = scored_rows(rows::live_rows(kept, kept.len() as int), context, arena);
            &&& frecency_results(files, context, files.len() as int, arena, arena) == all
            &&& frecency_results(files, context, base_count, arena, arena).len() == all.len()
            &&& paginate::is_page(all, FileRanking {  }, context.pagination, items, scores)
        }),
        shows_live(items, scores),
{
    let n = files.len() as int;
    let kept = rows::kept_rows(files, context, 0);
    let live = rows::live_rows(kept, kept.len() as int);
    let all = scored_rows(live, context, arena);
    lemma_parts_score(files, context, n, arena);
    lemma_parts_score(files, context, base_count, arena);
    let none = rows::kept_rows(files.skip(n), context, n);
    let whole = rows::kept_rows(files.take(n), context, 0);
    rows::lemma_kept_rows(files.skip(n), context, n);
    rows::lemma_kept_rows(files, context, 0);
    rows::lemma_live_rows(kept, kept.len() as int);
    assert(none.len() == 0);
    assert(files.take(n) =~= files);
    assert(scored_rows(rows::live_rows(none, 0), context, arena) + all =~= all);
    let over = rows::kept_rows(files.skip(base_count), context, base_count);
    let base = rows::kept_rows(files.take(base_count), context, 0);
    let first = scored_rows(rows::live_rows(over, over.len() as int), context, arena);
    let second = scored_rows(rows::live_rows(base, base.len() as int), context, arena);
    assert(all == second + first);
    assert(frecency_results(files, context, base_count, arena, arena) == first + second);
    lemma_turned_page(first, second, context.pagination, items, scores);
    lemma_page_is_live(live, context, arena, items, scores);
}

/// No deleted file is shown, and no score but those without a query.
pub open spec fn shows_live<'a>(items: Seq<&'a FileItem>, scores: Seq<Score>) -> bool {
    &&& forall|i: int| 0 <= i < items.len() ==> !(#[trigger] items[i]).deleted()
    &&& forall|i: int| 0 <= i < items.len() ==> (#[trigger] scores[i]).match_type == "frecency"
}

/// A page of live files shows live files only.
proof fn lemma_page_is_live<'a>(
    live: Seq<&'a FileItem>,
    context: ScoringContext<'_>,
    arena: ArenaPtr<'_>,
    items: Seq<&'a FileItem>,
    scores: Seq<Score>,
)
    requires
        forall|i: int| 0 <= i < live.len() ==> !(#[trigger] live[i]).deleted(),
        paginate::is_page(
            scored_rows(live, context, arena),
            FileRanking {  },
            context.pagination,
            items,
            scores,
        ),
    ensures
        shows_live(items, scores),
{
    let all = scored_rows(live, context, arena);
    if items.len() > 0 {
        let order = choose|order: Seq<usize>| #[trigger]
            sorting::is_stable_order(all, FileRanking {  }, order) && paginate::reads_page(
                all,
                order,
                context.pagination.offset as int,
                items,
                scores,
            );
        assert forall|i: int| 0 <= i < items.len() implies !(#[trigger] items[i]).deleted() by {
            let at = order[context.pagination.offset + i] as int;
            assert(order[context.pagination.offset + i] < all.len());
            assert(items[i] == all[at].0);
            assert(!live[at].deleted());
        }
        assert forall|i: int| 0 <= i < items.len() implies (
        #[trigger] scores[i]).match_type == "frecency" by {
            let at = order[context.pagination.offset + i] as int;
            assert(order[context.pagination.offset + i] < all.len());
            assert(items[i] == all[at].0);
            assert(scores[i] == all[at].1);
        }
    }
}

/// Ranking totals and scoring the page alone gives the page that ranking the
/// full scores of all files gives, wherever the base scan ends, as long as no
/// two files rank level. Every live file is counted.
pub proof fn law_ranking_is_that_of_full_scores<'a>(
    files: Seq<FileItem>,
    context: ScoringContext<'_>,
    base_count: int,
    arena: ArenaPtr<'_>,
    found: (Seq<&'a FileItem>, Seq<Score>, usize),
    full: (Seq<&'a FileItem>, Seq<Score>, usize),
)
    requires
        0 <= base_count <= files.len() <= usize::MAX,
        context.kept is None,
        ({
            let all = all_scored(files, context, arena);
            &&& keys_differ(all)
            &&& full.2 == all.len()
            &&& paginate::is_page(all, FileRanking {  }, context.pagination, full.0, full.1)
        }),
        ({
            let results = frecency_results(files, context, base_count, arena, arena);
            &&& found.2 == results.len()
            &&& paginate::is_page(results, FileRanking {  }, context.pagination, found.0, found.1)
        }),
    ensures
        found == full,
        found.2 == all_scored(files, context, arena).len(),
        shows_live(found.0, found.1),
{
    let kept = rows::kept_rows(files, context, 0);
    let all = all_scored(files, context, arena);
    assert(kept =~= Seq::new(files.len(), |i: int| &files[i]));
    lemma_whole_scores(files, context, arena);
    law_base_count_does_not_show(files, context, base_count, arena, found.0, found.1);
    rows::lemma_live_rows(kept, kept.len() as int);
    if found.0.len() > 0 {
        let a = choose|order: Seq<usize>| #[trigger]
            sorting::is_stable_order(all, FileRanking {  }, order) && paginate::reads_page(
                all,
                order,
                context.pagination.offset as int,
                found.0,
                found.1,
            );
        let b = choose|order: Seq<usize>| #[trigger]
            sorting::is_stable_order(all, FileRanking {  }, order) && paginate::reads_page(
                all,
                order,
                context.pagination.offset as int,
                full.0,
                full.1,
            );
        sorting::lemma_stable_order_unique(all, FileRanking {  }, a, b);
        assert forall|k: int| 0 <= k < found.0.len() implies found.0[k] == full.0[k] && found.1[k]
            == full.1[k] by {
            assert(full.0[k] == all[a[context.pagination.offset + k] as int].0);
        }
    }
    assert(found.0 =~= full.0);
    assert(found.1 =~= full.1);
}

/// The live rows of the whole table, each with what it is worth.
pub open spec fn all_scored<'a>(
    files: Seq<FileItem>,
    context: ScoringContext<'_>,
    arena: ArenaPtr<'_>,
) -> Seq<(&'a FileItem, Score)> {
    let rows = Seq::new(files.len(), |i: int| &files[i]);
    scored_rows(rows::live_rows(rows, rows.len() as int), context, arena)
}

proof fn lemma_whole_scores<'a>(
    files: Seq<FileItem>,
    context: ScoringContext<'_>,
    arena: ArenaPtr<'_>,
)
    requires
        context.kept is None,
    ensures
        frecency_results(files, context, files.len() as int, arena, arena) == all_scored(
            files,
            context,
            arena,
        ),
{
    let n = files.len() as int;
    let none = rows::kept_rows(files.skip(n), context, n);
    rows::lemma_kept_rows(files.skip(n), context, n);
    assert(none.len() == 0);
    assert(files.take(n) =~= files);
    assert(rows::kept_rows(files, context, 0) =~= Seq::new(files.len(), |i: int| &files[i]));
    let all = all_scored(files, context, arena);
    assert(scored_rows(rows::live_rows(none, 0), context, arena) + all =~= all);
}

/// The scores of the two parts are those of the whole.
proof fn lemma_parts_score<'a>(
    files: Seq<FileItem>,
    context: ScoringContext<'_>,
    count: int,
    arena: ArenaPtr<'_>,
)
    requires
        0 <= count <= files.len(),
    ensures
        ({
            let kept = rows::kept_rows(files, context, 0);
            let over = rows::kept_rows(files.skip(count), context, count);
            let base = rows::kept_rows(files.take(count), context, 0);
            scored_rows(rows::live_rows(kept, kept.len() as int), context, arena) == scored_rows(
                rows::live_rows(base, base.len() as int),
                context,
                arena,
            ) + scored_rows(rows::live_rows(over, over.len() as int), context, arena)
        }),
{
    let kept = rows::kept_rows(files, context, 0);
    let over = rows::kept_rows(files.skip(count), context, count);
    let base = rows::kept_rows(files.take(count), context, 0);
    lemma_kept_split(files, context, count);
    lemma_live_split(base, over, over.len() as int);
    assert(kept.len() == base.len() + over.len());
    assert(scored_rows(rows::live_rows(kept, kept.len() as int), context, arena) =~= scored_rows(
        rows::live_rows(base, base.len() as int),
        context,
        arena,
    ) + scored_rows(rows::live_rows(over, over.len() as int), context, arena));
}

} // verus!
