//! Pages of a ranking.

use crate::bytes::Rank;
use crate::score::context::{PaginationArgs, Score};
use crate::sorting;
use crate::sorting::Ranking;
use crate::types::{DirItem, FileItem};
use vstd::prelude::*;

verus! {

/// What results are ranked by.
pub trait Totalled: Copy {
    spec fn total_of(&self) -> i32;

    fn total(&self) -> (r: i32)
        ensures
            r == self.total_of(),
    ;
}

impl Totalled for i32 {
    open spec fn total_of(&self) -> i32 {
        *self
    }

    fn total(&self) -> i32 {
        *self
    }
}

impl Totalled for Score {
    open spec fn total_of(&self) -> i32 {
        self.total
    }

    fn total(&self) -> i32 {
        self.total
    }
}

/// Highest total first, the most recently modified among equals.
pub struct FileRanking {}

impl<'a, S: Totalled> Ranking<(&'a FileItem, S)> for FileRanking {
    open spec fn admits(&self, a: (&'a FileItem, S)) -> bool {
        true
    }

    open spec fn le(&self, a: (&'a FileItem, S), b: (&'a FileItem, S)) -> bool {
        a.1.total_of() > b.1.total_of() || (a.1.total_of() == b.1.total_of() && a.0.modified
            >= b.0.modified)
    }

    proof fn total(&self, a: (&'a FileItem, S), b: (&'a FileItem, S)) {
    }

    proof fn transitive(
        &self,
        a: (&'a FileItem, S),
        b: (&'a FileItem, S),
        c: (&'a FileItem, S),
    ) {
    }

    fn order(&self, a: &(&'a FileItem, S), b: &(&'a FileItem, S)) -> Rank {
        let x: i32 = a.1.total();
        let y: i32 = b.1.total();
        if x > y {
            Rank::Before
        } else if x < y {
            Rank::After
        } else if a.0.modified > b.0.modified {
            Rank::Before
        } else if a.0.modified < b.0.modified {
            Rank::After
        } else {
            Rank::Level
        }
    }
}

/// Highest total first.
pub struct DirRanking {}

impl<'a> Ranking<(&'a DirItem, Score)> for DirRanking {
    open spec fn admits(&self, a: (&'a DirItem, Score)) -> bool {
        true
    }

    open spec fn le(&self, a: (&'a DirItem, Score), b: (&'a DirItem, Score)) -> bool {
        a.1.total >= b.1.total
    }

    proof fn total(&self, a: (&'a DirItem, Score), b: (&'a DirItem, Score)) {
    }

    proof fn transitive(
        &self,
        a: (&'a DirItem, Score),
        b: (&'a DirItem, Score),
        c: (&'a DirItem, Score),
    ) {
    }

    fn order(&self, a: &(&'a DirItem, Score), b: &(&'a DirItem, Score)) -> Rank {
        let x: i32 = a.1.total;
        let y: i32 = b.1.total;
        if x > y {
            Rank::Before
        } else if x < y {
            Rank::After
        } else {
            Rank::Level
        }
    }
}

/// First place behind the page.
pub open spec fn page_end(total: int, page: PaginationArgs) -> int {
    if page.limit == 0 || page.offset + page.limit > total {
        total
    } else {
        page.offset + page.limit
    }
}

/// Rows of a page, out of `total`.
pub open spec fn page_len(total: int, page: PaginationArgs) -> int {
    if page.offset >= total {
        0
    } else {
        page_end(total, page) - page.offset
    }
}

/// `items` and `scores` are what stands in the places from `offset` on.
pub open spec fn reads_page<A, B>(
    results: Seq<(A, B)>,
    order: Seq<usize>,
    offset: int,
    items: Seq<A>,
    scores: Seq<B>,
) -> bool {
    forall|k: int|
        0 <= k < items.len() ==> #[trigger] items[k] == results[order[offset + k] as int].0
            && scores[k] == results[order[offset + k] as int].1
}

/// `items` and `scores` are the page of the results in their stable ranking.
pub open spec fn is_page<A, B, R: Ranking<(A, B)>>(
    results: Seq<(A, B)>,
    ranking: R,
    page: PaginationArgs,
    items: Seq<A>,
    scores: Seq<B>,
) -> bool {
    &&& items.len() == page_len(results.len() as int, page)
    &&& scores.len() == items.len()
    &&& items.len() > 0 ==> exists|order: Seq<usize>| #[trigger]
        sorting::is_stable_order(results, ranking, order) && reads_page(
            results,
            order,
            page.offset as int,
            items,
            scores,
        )
}

/// The results in the places `[offset, end)` of their order.
fn take_page<A: Copy, B: Copy>(results: &Vec<(A, B)>, order: &Vec<usize>, offset: usize, end: usize)
    -> (r: (Vec<A>, Vec<B>))
    requires
        sorting::is_permutation(order@, results@.len()),
        offset <= end <= results@.len(),
    ensures
        r.0@.len() == end - offset,
        r.1@.len() == end - offset,
        forall|k: int|
            0 <= k < r.0@.len() ==> #[trigger] r.0@[k] == results@[order@[offset + k] as int].0
                && r.1@[k] == results@[order@[offset + k] as int].1,
{
    let mut items: Vec<A> = Vec::new();
    let mut scores: Vec<B> = Vec::new();
    let mut i: usize = offset;
    while i < end
        invariant
            offset <= i <= end <= results@.len(),
            sorting::is_permutation(order@, results@.len()),
            items@.len() == i - offset,
            scores@.len() == i - offset,
            forall|k: int|
                0 <= k < items@.len() ==> #[trigger] items@[k] == results@[order@[offset
                    + k] as int].0 && scores@[k] == results@[order@[offset + k] as int].1,
        decreases end - i,
    {
        let pick: (A, B) = results[order[i]];
        items.push(pick.0);
        scores.push(pick.1);
        i += 1;
    }
    (items, scores)
}

/// Sorts by total score (descending) and returns the requested page, with the
/// number of all results.
pub fn sort_and_paginate<'a, S: Totalled>(
    results: Vec<(&'a FileItem, S)>,
    pagination: PaginationArgs,
) -> (r: (Vec<&'a FileItem>, Vec<S>, usize))
    ensures
        r.2 == results@.len(),
        is_page(results@, FileRanking {  }, pagination, r.0@, r.1@),
{
    let total: usize = results.len();
    let offset: usize = pagination.offset;
    if offset >= total {
        return (Vec::new(), Vec::new(), total);
    }
    let end: usize = if pagination.limit == 0 || pagination.limit > total - offset {
        total
    } else {
        offset + pagination.limit
    };
    let ranking = FileRanking {  };
    let order = sorting::stable_order(results.as_slice(), &ranking);
    let (items, scores) = take_page(&results, &order, offset, end);
    assert(reads_page(results@, order@, offset as int, items@, scores@));
    (items, scores, total)
}

/// Sorts directories by total score (descending) and returns the requested
/// page, with the number of all results.
pub fn sort_and_paginate_dirs<'a>(
    results: Vec<(&'a DirItem, Score)>,
    pagination: PaginationArgs,
) -> (r: (Vec<&'a DirItem>, Vec<Score>, usize))
    ensures
        r.2 == results@.len(),
        is_page(results@, DirRanking {  }, pagination, r.0@, r.1@),
{
    let total: usize = results.len();
    let offset: usize = pagination.offset;
    if offset >= total {
        return (Vec::new(), Vec::new(), total);
    }
    let end: usize = if pagination.limit == 0 || pagination.limit > total - offset {
        total
    } else {
        offset + pagination.limit
    };
    let ranking = DirRanking {  };
    let order = sorting::stable_order(results.as_slice(), &ranking);
    let (items, scores) = take_page(&results, &order, offset, end);
    assert(reads_page(results@, order@, offset as int, items@, scores@));
    (items, scores, total)
}

/// A page is the same part of the ranking of all results, whatever the order
/// in which it is worked out.
pub proof fn law_pages_agree<A, B, R: Ranking<(A, B)>>(
    results: Seq<(A, B)>,
    ranking: R,
    page: PaginationArgs,
    items: Seq<A>,
    scores: Seq<B>,
    all: Seq<A>,
    all_scores: Seq<B>,
)
    requires
        results.len() <= usize::MAX,
        is_page(results, ranking, page, items, scores),
        is_page(results, ranking, (PaginationArgs { offset: 0, limit: 0 }), all, all_scores),
    ensures
        all.len() == results.len(),
        items.len() > 0 ==> items == all.subrange(
            page.offset as int,
            page.offset + items.len(),
        ) && scores == all_scores.subrange(page.offset as int, page.offset + items.len()),
{
    if items.len() > 0 {
        let a = choose|order: Seq<usize>| #[trigger]
            sorting::is_stable_order(results, ranking, order) && reads_page(
                results,
                order,
                page.offset as int,
                items,
                scores,
            );
        let b = choose|order: Seq<usize>| #[trigger]
            sorting::is_stable_order(results, ranking, order) && reads_page(
                results,
                order,
                0,
                all,
                all_scores,
            );
        sorting::lemma_stable_order_unique(results, ranking, a, b);
        assert forall|k: int| 0 <= k < items.len() implies items[k] == all[page.offset + k]
            && scores[k] == all_scores[page.offset + k] by {
            assert(all[page.offset + k] == results[b[page.offset + k] as int].0);
        }
        assert(items =~= all.subrange(page.offset as int, page.offset + items.len()));
        assert(scores =~= all_scores.subrange(page.offset as int, page.offset + items.len()));
    }
}

} // verus!
