//! What a search gives, whatever was searched for before.

use crate::gpu::readback;
use crate::gpu::readback::Selection;
use crate::gpu::search::MatcherState;
use crate::gpu::topk;
use crate::gpu::topk::{EntryRanking, ScoreRanking, TopK};
use crate::prototype::window;
use vstd::prelude::*;

verus! {

/// The paths in which the bytes of a needle occur in order.
pub open spec fn survivors(paths: Seq<Seq<u8>>, needle: Seq<u8>) -> Set<int> {
    Set::new(|i: int| 0 <= i < paths.len() && window::occurs(needle, paths[i]))
}

/// What the prefilter leaves of the paths that it is told to look at: all of
/// them, or what it `kept` of the search before.
pub open spec fn left_over(
    state: MatcherState,
    paths: Seq<Seq<u8>>,
    needle: Seq<u8>,
    kept: Set<int>,
) -> Set<int> {
    if state.prefilter_of(needle) is Survivors {
        kept.intersect(survivors(paths, needle))
    } else {
        survivors(paths, needle)
    }
}

/// What is kept are the survivors of the last needle, where there is one.
pub open spec fn keeps(state: MatcherState, paths: Seq<Seq<u8>>, kept: Set<int>) -> bool {
    state.last_needle@.len() > 0 ==> kept == survivors(paths, state.last_needle@)
}

/// The scores of a search: what a path is worth where it survived, nothing
/// elsewhere.
pub open spec fn scores_of(count: nat, left: Set<int>, worth: spec_fn(int) -> u32) -> Seq<u32> {
    Seq::new(
        count,
        |i: int|
            if left.contains(i) {
                worth(i)
            } else {
                0
            },
    )
}

/// A search leaves the same paths, whatever was searched for before: rescanning
/// what is kept misses nothing.
pub proof fn law_rescan_misses_nothing(
    state: MatcherState,
    paths: Seq<Seq<u8>>,
    needle: Seq<u8>,
    kept: Set<int>,
)
    requires
        keeps(state, paths, kept),
    ensures
        left_over(state, paths, needle, kept) == survivors(paths, needle),
{
    if state.prefilter_of(needle) is Survivors {
        let last = state.last_needle@;
        assert(kept == survivors(paths, last));
        assert forall|i: int| #[trigger] survivors(paths, needle).contains(i) implies kept.contains(
            i,
        ) by {
            window::law_longer_needles_keep_survivors(last, needle, paths[i]);
        }
        assert(kept.intersect(survivors(paths, needle)) =~= survivors(paths, needle));
    }
}

/// What a search leaves is what is kept once it was submitted.
pub proof fn law_survivors_stay_kept(
    before: MatcherState,
    after: MatcherState,
    paths: Seq<Seq<u8>>,
    needle: Seq<u8>,
    kept: Set<int>,
)
    requires
        keeps(before, paths, kept),
        after.last_needle@ == needle,
    ensures
        keeps(after, paths, left_over(before, paths, needle, kept)),
{
    law_rescan_misses_nothing(before, paths, needle, kept);
}

/// Where the shaders pick what they should of the scores that a search leaves,
/// its entries are the best of a search from scratch, best first, whatever was
/// searched for before.
pub proof fn law_topk_is_that_of_a_full_search(
    state: MatcherState,
    paths: Seq<Seq<u8>>,
    needle: Seq<u8>,
    kept: Set<int>,
    worth: spec_fn(int) -> u32,
    k: int,
    selection: Selection,
    out: Seq<(u32, u32, u32)>,
    ties: Seq<(u32, u32)>,
    r: TopK,
    whole: Seq<(u32, u32)>,
)
    requires
        paths.len() <= u32::MAX,
        keeps(state, paths, kept),
        out.len() <= usize::MAX,
        ties.len() <= usize::MAX,
        readback::is_picked(
            topk::scored_ids(
                scores_of(paths.len(), left_over(state, paths, needle, kept), worth),
                paths.len() as int,
            ),
            k,
            selection.threshold,
            out,
            ties,
        ),
        topk::is_ranking_of(out, EntryRanking {  }, selection.top@),
        selection.need == readback::wanted(k, out.len() as int),
        readback::is_finished(selection, ties, r),
        topk::is_best(
            topk::scored_ids(
                scores_of(paths.len(), survivors(paths, needle), worth),
                paths.len() as int,
            ),
            ScoreRanking {  },
            k,
            whole,
        ),
    ensures
        r.entries@ == whole,
        r.meta@.len() == r.entries@.len(),
        topk::is_top(
            topk::scored_ids(
                scores_of(paths.len(), survivors(paths, needle), worth),
                paths.len() as int,
            ),
            k,
            r.entries@,
        ),
{
    law_rescan_misses_nothing(state, paths, needle, kept);
    let scores = scores_of(paths.len(), survivors(paths, needle), worth);
    let items = topk::scored_ids(scores, paths.len() as int);
    topk::lemma_scored_ids(scores, paths.len() as int);
    readback::law_selection_is_best(items, k, selection, out, ties, r, whole);
    topk::lemma_best_is_top(items, k, whole);
}

/// Two searches for one needle give the same entries, whatever each matcher was
/// searched for before.
pub proof fn law_history_does_not_show(
    a: MatcherState,
    b: MatcherState,
    paths: Seq<Seq<u8>>,
    needle: Seq<u8>,
    kept_a: Set<int>,
    kept_b: Set<int>,
    worth: spec_fn(int) -> u32,
    k: int,
    top_a: Seq<(u32, u32)>,
    top_b: Seq<(u32, u32)>,
)
    requires
        paths.len() <= u32::MAX,
        0 <= k,
        keeps(a, paths, kept_a),
        keeps(b, paths, kept_b),
        topk::is_best(
            topk::scored_ids(
                scores_of(paths.len(), left_over(a, paths, needle, kept_a), worth),
                paths.len() as int,
            ),
            ScoreRanking {  },
            k,
            top_a,
        ),
        topk::is_best(
            topk::scored_ids(
                scores_of(paths.len(), left_over(b, paths, needle, kept_b), worth),
                paths.len() as int,
            ),
            ScoreRanking {  },
            k,
            top_b,
        ),
    ensures
        top_a == top_b,
{
    law_rescan_misses_nothing(a, paths, needle, kept_a);
    law_rescan_misses_nothing(b, paths, needle, kept_b);
    let scores = scores_of(paths.len(), survivors(paths, needle), worth);
    let items = topk::scored_ids(scores, paths.len() as int);
    topk::lemma_scored_ids(scores, paths.len() as int);
    topk::lemma_best_is_top(items, k, top_a);
    topk::lemma_best_is_top(items, k, top_b);
    topk::lemma_top_unique(items, k, top_a, top_b);
}

} // verus!
