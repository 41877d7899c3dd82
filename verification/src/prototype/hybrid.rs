//! Searching some paths on the GPU and the others on the processor.

use crate::gpu::topk;
use crate::gpu::topk::{merge_top, ScoreRanking};
use crate::score::hits::Hit;
use vstd::prelude::*;

verus! {

/// Results that are kept.
pub const TOP_K: usize = 50;

/// The best results of the GPU's part.
pub fn top_k_scores(scores: &[u32]) -> (r: Vec<(u32, u32)>)
    requires
        scores@.len() <= u32::MAX,
    ensures
        topk::is_best(
            topk::scored_ids(scores@, scores@.len() as int),
            ScoreRanking {  },
            TOP_K as int,
            r@,
        ),
{
    topk::top_k_scores(scores, TOP_K)
}

/// The best results of the processor's part, whose ids start at `offset`.
pub fn top_k_matches(hits: &Vec<Hit>, offset: u32) -> (r: Vec<(u32, u32)>)
    requires
        forall|i: int| 0 <= i < hits@.len() ==> (#[trigger] hits@[i]).index + offset <= u32::MAX,
    ensures
        topk::is_best(
            topk::hit_pairs(hits@, offset as int),
            ScoreRanking {  },
            TOP_K as int,
            r@,
        ),
{
    topk::top_k_matches(hits, offset, TOP_K)
}

/// The best results of both parts.
pub fn merge_parts(gpu: Vec<(u32, u32)>, cpu: Vec<(u32, u32)>) -> (r: Vec<(u32, u32)>)
    ensures
        topk::is_best(gpu@ + cpu@, ScoreRanking {  }, TOP_K as int, r@),
{
    merge_top(gpu, cpu, TOP_K)
}

/// Paths that the GPU is given: one at least, since it takes no empty table.
pub fn gpu_share(split: usize) -> (r: usize)
    ensures
        r == if split > 1 {
            split as int
        } else {
            1
        },
{
    if split > 1 {
        split
    } else {
        1
    }
}

/// All results of both parts, not cut.
pub open spec fn all_results(scores: Seq<u32>, hits: Seq<Hit>) -> Seq<(u32, u32)> {
    topk::scored_ids(scores, scores.len() as int) + topk::hit_pairs(hits, scores.len() as int)
}

/// Where the paths are split does not show: merging the best of both parts
/// gives the best of all.
pub proof fn law_split_does_not_show(
    scores: Seq<u32>,
    hits: Seq<Hit>,
    gpu: Seq<(u32, u32)>,
    cpu: Seq<(u32, u32)>,
    merged: Seq<(u32, u32)>,
    whole: Seq<(u32, u32)>,
)
    requires
        scores.len() + hits.len() <= usize::MAX,
        scores.len() <= u32::MAX,
        forall|i: int|
            0 <= i < hits.len() ==> (#[trigger] hits[i]).index + scores.len() <= u32::MAX,
        forall|i: int, j: int|
            0 <= i < j < hits.len() ==> (#[trigger] hits[i]).index != (#[trigger] hits[j]).index,
        topk::is_best(
            topk::scored_ids(scores, scores.len() as int),
            ScoreRanking {  },
            TOP_K as int,
            gpu,
        ),
        topk::is_best(
            topk::hit_pairs(hits, scores.len() as int),
            ScoreRanking {  },
            TOP_K as int,
            cpu,
        ),
        topk::is_best(gpu + cpu, ScoreRanking {  }, TOP_K as int, merged),
        topk::is_best(all_results(scores, hits), ScoreRanking {  }, TOP_K as int, whole),
    ensures
        merged == whole,
{
    let n = scores.len() as int;
    let a = topk::scored_ids(scores, n);
    let b = topk::hit_pairs(hits, n);
    topk::lemma_scored_ids(scores, n);
    assert forall|i: int, j: int| 0 <= i < j < (a + b).len() implies (a + b)[i] != (a + b)[j] by {
        if j < a.len() {
            assert(a[i].1 < a[j].1);
        } else if i < a.len() {
            assert(a[i].1 < n);
            assert(b[j - a.len()].1 >= n);
        } else {
            assert(hits[i - a.len()].index != hits[j - a.len()].index);
        }
    }
    assert((a + b).no_duplicates());
    topk::law_best_of_parts(a, b, TOP_K as int, gpu, cpu, merged, whole);
}

} // verus!
