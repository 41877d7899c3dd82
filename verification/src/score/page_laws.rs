//! What rankings and their pages are for.

use crate::score::context::{PaginationArgs, Score, ScoringContext};
use crate::score::files;
use crate::score::frecency;
use crate::score::paginate;
use crate::score::paginate::{DirRanking, FileRanking};
use crate::score::rows;
use crate::simd_path::ArenaPtr;
use crate::sorting;
use crate::sorting::Ranking;
use crate::types::{DirItem, FileItem};
use vstd::prelude::*;

verus! {

/// A page never steps up in total, and among equal totals never to a file that
/// was changed later.
pub proof fn law_files_are_ranked<'a>(
    results: Seq<(&'a FileItem, Score)>,
    page: PaginationArgs,
    items: Seq<&'a FileItem>,
    scores: Seq<Score>,
    i: int,
    j: int,
)
    requires
        paginate::is_page(results, FileRanking {  }, page, items, scores),
        0 <= i < j < items.len(),
    ensures
        scores[i].total >= scores[j].total,
        scores[i].total == scores[j].total ==> items[i].modified >= items[j].modified,
{
    let ranking = FileRanking {  };
    let order = choose|order: Seq<usize>| #[trigger]
        sorting::is_stable_order(results, ranking, order) && paginate::reads_page(
            results,
            order,
            page.offset as int,
            items,
            scores,
        );
    let a = order[page.offset + i];
    let b = order[page.offset + j];
    assert(items[i] == results[a as int].0 && items[j] == results[b as int].0);
    assert(sorting::comes_before(results, ranking, a, b));
    ranking.total(results[a as int], results[b as int]);
}

/// What a page leaves out behind its end ranks no higher than what is on it;
/// what it leaves out in front of its start ranks no lower.
pub proof fn law_pages_leave_nothing_better_out<'a>(
    results: Seq<(&'a FileItem, Score)>,
    page: PaginationArgs,
    items: Seq<&'a FileItem>,
    scores: Seq<Score>,
    i: int,
) -> (order: Seq<usize>)
    requires
        paginate::is_page(results, FileRanking {  }, page, items, scores),
        0 <= i < items.len(),
    ensures
        sorting::is_permutation(order, results.len()),
        forall|k: int|
            0 <= k < items.len() ==> #[trigger] items[k] == results[order[page.offset
                + k] as int].0,
        forall|k: int|
            page.offset + i < k < order.len() ==> results[(#[trigger] order[k]) as int].1.total
                <= scores[i].total,
        forall|k: int|
            0 <= k < page.offset + i && k < order.len() ==> results[(
            #[trigger] order[k]) as int].1.total >= scores[i].total,
{
    let ranking = FileRanking {  };
    let order = choose|order: Seq<usize>| #[trigger]
        sorting::is_stable_order(results, ranking, order) && paginate::reads_page(
            results,
            order,
            page.offset as int,
            items,
            scores,
        );
    let a = order[page.offset + i];
    assert(items[i] == results[a as int].0 && scores[i] == results[a as int].1);
    assert forall|k: int| page.offset + i < k < order.len() implies results[(
    #[trigger] order[k]) as int].1.total <= scores[i].total by {
        assert(sorting::comes_before(results, ranking, a, order[k]));
        ranking.total(results[a as int], results[order[k] as int]);
    }
    assert forall|k: int| 0 <= k < page.offset + i && k < order.len() implies results[(
    #[trigger] order[k]) as int].1.total >= scores[i].total by {
        assert(sorting::comes_before(results, ranking, order[k], a));
        ranking.total(results[a as int], results[order[k] as int]);
    }
    order
}

/// Files that rank level stay as they came: those of the overlays, which come
/// first, in front of those of the base scan.
pub proof fn law_level_files_stay_as_they_came<'a>(
    over: Seq<(&'a FileItem, Score)>,
    base: Seq<(&'a FileItem, Score)>,
    page: PaginationArgs,
    items: Seq<&'a FileItem>,
    scores: Seq<Score>,
    i: int,
    j: int,
)
    requires
        paginate::is_page(over + base, FileRanking {  }, page, items, scores),
        0 <= i < j < items.len(),
        scores[i].total == scores[j].total,
        items[i].modified == items[j].modified,
    ensures
        exists|x: int, y: int|
            0 <= x < y < over.len() + base.len() && #[trigger] (over + base)[x] == (
            items[i],
            scores[i],
        ) && #[trigger] (over + base)[y] == (items[j], scores[j]),
        over.contains((items[j], scores[j])) && !base.contains((items[j], scores[j]))
            ==> over.contains((items[i], scores[i])),
{
    let results = over + base;
    let ranking = FileRanking {  };
    let order = choose|order: Seq<usize>| #[trigger]
        sorting::is_stable_order(results, ranking, order) && paginate::reads_page(
            results,
            order,
            page.offset as int,
            items,
            scores,
        );
    let a = order[page.offset + i];
    let b = order[page.offset + j];
    assert(items[i] == results[a as int].0 && items[j] == results[b as int].0);
    assert(sorting::comes_before(results, ranking, a, b));
    assert(results[a as int] == (items[i], scores[i]));
    assert(results[b as int] == (items[j], scores[j]));
    if b < over.len() {
        assert(over[a as int] == (items[i], scores[i]));
    } else {
        assert(base[b - over.len()] == (items[j], scores[j]));
    }
}

/// Directories are ranked by their totals alone, level ones as they came.
pub proof fn law_directories_are_ranked<'a>(
    results: Seq<(&'a DirItem, Score)>,
    page: PaginationArgs,
    items: Seq<&'a DirItem>,
    scores: Seq<Score>,
    i: int,
    j: int,
)
    requires
        paginate::is_page(results, DirRanking {  }, page, items, scores),
        0 <= i < j < items.len(),
    ensures
        scores[i].total >= scores[j].total,
        scores[i].total == scores[j].total ==> exists|x: int, y: int|
            0 <= x < y < results.len() && #[trigger] results[x] == (items[i], scores[i])
                && #[trigger] results[y] == (items[j], scores[j]),
{
    let ranking = DirRanking {  };
    let order = choose|order: Seq<usize>| #[trigger]
        sorting::is_stable_order(results, ranking, order) && paginate::reads_page(
            results,
            order,
            page.offset as int,
            items,
            scores,
        );
    let a = order[page.offset + i];
    let b = order[page.offset + j];
    assert(items[i] == results[a as int].0 && items[j] == results[b as int].0);
    assert(sorting::comes_before(results, ranking, a, b));
    ranking.total(results[a as int], results[b as int]);
    assert(results[a as int] == (items[i], scores[i]));
    assert(results[b as int] == (items[j], scores[j]));
}

/// A page holds what was asked for, as far as there is anything: no more than
/// its limit, nothing behind the last result, and all of them where no limit is
/// given.
pub proof fn law_pages_are_as_long_as_asked<A, B, R: Ranking<(A, B)>>(
    results: Seq<(A, B)>,
    ranking: R,
    page: PaginationArgs,
    items: Seq<A>,
    scores: Seq<B>,
)
    requires
        paginate::is_page(results, ranking, page, items, scores),
    ensures
        scores.len() == items.len(),
        page.offset >= results.len() ==> items.len() == 0,
        page.limit > 0 ==> items.len() <= page.limit,
        page.offset < results.len() && page.limit == 0 ==> page.offset + items.len()
            == results.len(),
        page.offset + page.limit <= results.len() && page.limit > 0 ==> items.len() == page.limit,
        page.offset < results.len() < page.offset + page.limit ==> page.offset + items.len()
            == results.len(),
{
}

/// The kept rows are those that are marked, in the order of the table; all of
/// them where the query has no constraints.
pub proof fn law_kept_rows_are_the_marked_ones<'a>(
    files: Seq<FileItem>,
    context: ScoringContext<'_>,
    at: int,
    i: int,
)
    requires
        0 <= at,
        0 <= i < files.len(),
    ensures
        ({
            let kept = rows::kept_rows(files, context, at);
            match context.kept {
                None => kept.len() == files.len() && *kept[i] == files[i],
                Some(marks) => {
                    let before = rows::marked_rows(files, marks@, at, i).len() as int;
                    &&& marks@[at + i] ==> before < kept.len() && *kept[before] == files[i]
                    &&& rows::marked_rows(files, marks@, at, i + 1).len() == before
                        + if marks@[at + i] {
                        1int
                    } else {
                        0
                    }
                },
            }
        }),
{
    if let Some(marks) = context.kept {
        lemma_marked(files, marks@, at, files.len() as int, i);
    }
}

proof fn lemma_marked<'a>(files: Seq<FileItem>, marks: Seq<bool>, at: int, n: int, i: int)
    requires
        0 <= i < n <= files.len(),
    ensures
        ({
            let kept = rows::marked_rows(files, marks, at, n);
            let before = rows::marked_rows(files, marks, at, i).len() as int;
            marks[at + i] ==> before < kept.len() && *kept[before] == files[i]
        }),
    decreases n,
{
    if n - 1 > i {
        lemma_marked(files, marks, at, n - 1, i);
    }
}

/// A row is scored without a query exactly where it is not deleted, in the order
/// of the rows.
pub proof fn law_live_rows_are_scored<'a>(rows: Seq<&'a FileItem>, n: int, i: int)
    requires
        0 <= i < n <= rows.len(),
    ensures
        ({
            let live = rows::live_rows(rows, n);
            let before = rows::live_rows(rows, i).len() as int;
            &&& !rows[i].deleted() ==> before < live.len() && live[before] == rows[i]
            &&& rows::live_rows(rows, i + 1).len() == before + if rows[i].deleted() {
                0int
            } else {
                1
            }
        }),
    decreases n,
{
    if n - 1 > i {
        law_live_rows_are_scored(rows, n - 1, i);
    }
}

/// A row is matched exactly where it is not deleted, in the order of the rows.
pub proof fn law_live_rows_are_matched(rows: Seq<&FileItem>, n: int, i: int)
    requires
        0 <= i < n <= rows.len(),
    ensures
        ({
            let places = files::live_places(rows, n);
            let before = files::live_places(rows, i).len() as int;
            &&& !rows[i].deleted() ==> before < places.len() && places[before] == i
            &&& files::live_places(rows, i + 1).len() == before + if rows[i].deleted() {
                0int
            } else {
                1
            }
        }),
    decreases n,
{
    if n - 1 > i {
        law_live_rows_are_matched(rows, n - 1, i);
    }
}

/// Without a query a file is worth its uses, a change counting four times as
/// much as an access, fifteen percent more where git says that it is changed,
/// and its recency in git; the open file loses what its uses gave it.
pub proof fn law_worth_without_a_query(
    file: FileItem,
    context: ScoringContext<'_>,
    arena: ArenaPtr<'_>,
    r: Score,
)
    requires
        r == frecency::frecency_score_of(file, frecency::is_current(file, context, arena)),
    ensures
        ({
            let uses = file.access_frecency_score + 4 * file.modification_frecency_score;
            let changed = r.git_status_boost;
            let open = context.current_file matches Some(current) && vstd::utf8::encode_utf8(
                current@,
            ) == arena.store->0.path(file.path);
            &&& r.frecency_boost == uses
            &&& !file.git_modified ==> changed == 0
            &&& file.git_modified && uses >= 0 ==> 100 * changed <= 15 * uses < 100 * changed + 100
            &&& file.git_modified && uses < 0 ==> 100 * changed - 100 < 15 * uses <= 100 * changed
            &&& r.git_recency_boost == file.git_recency_score
            &&& open ==> r.current_file_penalty == -uses
            &&& !open ==> r.current_file_penalty == 0
            &&& r.total == uses + changed + file.git_recency_score + r.current_file_penalty
            &&& r.base_score == 0
            &&& r.filename_bonus == 0
            &&& r.distance_penalty == 0
            &&& r.combo_match_boost == 0
            &&& r.path_alignment_bonus == 0
            &&& !r.exact_match
            &&& r.match_type == "frecency"
        }),
{
}

/// Of two files alike but for their uses, the one that is used more never has
/// the lower total while neither is open; the open file never has the higher
/// one while its uses count for it.
pub proof fn law_used_files_rank_first(a: FileItem, b: FileItem)
    requires
        a.access_frecency_score + 4 * a.modification_frecency_score <= b.access_frecency_score + 4
            * b.modification_frecency_score,
        a.git_modified == b.git_modified,
        a.git_recency_score == b.git_recency_score,
    ensures
        frecency::frecency_score_of(a, false).total <= frecency::frecency_score_of(b, false).total,
        a.access_frecency_score + 4 * a.modification_frecency_score >= 0
            ==> frecency::frecency_score_of(b, true).total <= frecency::frecency_score_of(
            b,
            false,
        ).total,
{
}

} // verus!
