//! What searches on the GPU send, and what their results mean.

use crate::bytes;
use crate::gpu::index;
use crate::gpu::index::{IndexState, Refresh};
use crate::gpu::matcher;
use crate::gpu::matcher::{Kernel, Scoring, Tables, Upload};
use crate::gpu::pack;
use crate::gpu::readback;
use crate::gpu::readback::Selection;
use crate::gpu::search;
use crate::gpu::search::{MatcherState, Prefilter, Scorer, SearchPlan};
use crate::gpu::topk;
use crate::gpu::topk::{EntryRanking, ScoreRanking, TieRanking, TopK};
use crate::score::hits::Hit;
use crate::sorting;
use crate::sorting::Ranking;
use crate::types::FileItem;
use vstd::prelude::*;

verus! {

/// The plan is one that [`MatcherState::plan_search`] makes.
pub open spec fn is_plan(
    state: MatcherState,
    needle: Seq<char>,
    scoring: Scoring,
    use_subgroup: bool,
    top_k: Option<u32>,
    plan: SearchPlan,
) -> bool {
    let cut = search::needle_bytes(needle);
    &&& state.wf()
    &&& plan.params == search::params_of(cut.len() as int, state.tables, scoring, top_k, 0)
    &&& plan.needle@ == search::padded(cut)
    &&& plan.set == 1 - state.cur
    &&& plan.prefilter == state.prefilter_of(cut)
    &&& plan.scorer == state.scorer_of(cut.len() as int, use_subgroup)
    &&& plan.score_at == if plan.scorer == Scorer::Scalar {
        search::SURVIVOR_BLOCKS
    } else {
        search::SURVIVOR_GROUPS
    }
}

/// Every weight that is sent is the caller's of the same name, and every count
/// is that of the tables.
pub proof fn law_weights_are_the_callers(
    state: MatcherState,
    needle: Seq<char>,
    scoring: Scoring,
    use_subgroup: bool,
    top_k: Option<u32>,
    plan: SearchPlan,
)
    requires
        is_plan(state, needle, scoring, use_subgroup, top_k, plan),
    ensures
        plan.params.match_score == scoring.match_score,
        plan.params.mismatch_penalty == scoring.mismatch_penalty,
        plan.params.gap_open == scoring.gap_open_penalty,
        plan.params.gap_extend == scoring.gap_extend_penalty,
        plan.params.prefix_bonus == scoring.prefix_bonus,
        plan.params.delimiter_bonus == scoring.delimiter_bonus,
        plan.params.capitalization_bonus == scoring.capitalization_bonus,
        plan.params.matching_case_bonus == scoring.matching_case_bonus,
        plan.params.exact_match_bonus == scoring.exact_match_bonus,
        plan.params.item_count == state.tables.item_count,
        plan.params.thread_count == state.tables.thread_count,
        top_k matches Some(k) ==> plan.params.top_k == k,
        top_k is None ==> plan.params.top_k == 0,
        plan.params.tie_bucket == 0,
        plan.params.reserved == 0,
{
}

/// Two searches that differ in one weight send parameters that differ in it;
/// nothing of a scoring is lost.
pub proof fn law_scorings_can_be_told_apart(
    state: MatcherState,
    needle: Seq<char>,
    a: Scoring,
    b: Scoring,
    use_subgroup: bool,
    top_k: Option<u32>,
    plan_a: SearchPlan,
    plan_b: SearchPlan,
)
    requires
        is_plan(state, needle, a, use_subgroup, top_k, plan_a),
        is_plan(state, needle, b, use_subgroup, top_k, plan_b),
    ensures
        plan_a.params == plan_b.params <==> a == b,
{
    law_weights_are_the_callers(state, needle, a, use_subgroup, top_k, plan_a);
    law_weights_are_the_callers(state, needle, b, use_subgroup, top_k, plan_b);
}

/// The needle is sent byte for byte, up to sixty-four of them, with zeros behind
/// it; its length is told.
pub proof fn law_needles_are_sent(
    state: MatcherState,
    needle: Seq<char>,
    scoring: Scoring,
    use_subgroup: bool,
    top_k: Option<u32>,
    plan: SearchPlan,
)
    requires
        is_plan(state, needle, scoring, use_subgroup, top_k, plan),
    ensures
        ({
            let all = vstd::utf8::encode_utf8(needle);
            let len = plan.params.needle_len as int;
            &&& plan.needle@.len() == 64
            &&& all.len() <= 64 ==> len == all.len()
            &&& all.len() > 64 ==> len == 64
            &&& forall|i: int| 0 <= i < len ==> #[trigger] plan.needle@[i] == all[i]
            &&& forall|i: int| len <= i < 64 ==> #[trigger] plan.needle@[i] == 0
        }),
{
}

/// Needles that begin with the same sixty-four bytes are searched for alike.
pub proof fn law_later_bytes_do_not_count(
    state: MatcherState,
    a: Seq<char>,
    b: Seq<char>,
    scoring: Scoring,
    use_subgroup: bool,
    top_k: Option<u32>,
    plan_a: SearchPlan,
    plan_b: SearchPlan,
)
    requires
        is_plan(state, a, scoring, use_subgroup, top_k, plan_a),
        is_plan(state, b, scoring, use_subgroup, top_k, plan_b),
        vstd::utf8::encode_utf8(a).len() >= 64,
        vstd::utf8::encode_utf8(b).len() >= 64,
        vstd::utf8::encode_utf8(a).take(64) == vstd::utf8::encode_utf8(b).take(64),
    ensures
        plan_a.params == plan_b.params,
        plan_a.needle@ == plan_b.needle@,
        plan_a.prefilter == plan_b.prefilter,
        plan_a.scorer == plan_b.scorer,
{
    let x = vstd::utf8::encode_utf8(a);
    let y = vstd::utf8::encode_utf8(b);
    assert(search::needle_bytes(a) =~= x.take(64));
    assert(search::needle_bytes(b) =~= y.take(64));
}

/// Workgroups of sixty-four threads are enough for all that there is to look
/// at, with none to spare but in the last row; no row is longer than devices
/// take.
pub proof fn law_grids_cover(count: int)
    requires
        0 <= count,
    ensures
        ({
            let g = pack::grid_of(search::blocks_of(count));
            &&& 1 <= g.0 <= 32768
            &&& 64 * (g.0 * g.1) >= count
            &&& count > 0 ==> 64 * (g.0 * (g.1 - 1)) < count
        }),
{
    let n = search::blocks_of(count);
    let (x, y) = pack::grid_of(n);
    assert(x * y >= n && (n > 0 ==> x * (y - 1) < n)) by (nonlinear_arith)
        requires
            1 <= x,
            x <= n || (n == 0 && x == 1),
            y == (n + x - 1) / x,
    ;
    if count > 0 {
        assert(x * (y - 1) <= n - 1);
    }
}

/// A search looks at every thread of the prefilter, at every path where there
/// is none, or at the survivors of the search before, which began like it.
pub proof fn law_searches_look_at_everything(
    state: MatcherState,
    needle: Seq<char>,
    scoring: Scoring,
    use_subgroup: bool,
    top_k: Option<u32>,
    plan: SearchPlan,
)
    requires
        is_plan(state, needle, scoring, use_subgroup, top_k, plan),
    ensures
        match plan.prefilter {
            Prefilter::Off { x, y } => state.kernel == Kernel::ThreadPerItem && 64 * (x * y)
                >= state.tables.item_count,
            Prefilter::All { x, y } => state.kernel != Kernel::ThreadPerItem && 64 * (x * y)
                >= state.tables.thread_count,
            Prefilter::Survivors { at } => {
                &&& state.kernel != Kernel::ThreadPerItem
                &&& state.incremental
                &&& state.last_needle@.len() > 0
                &&& state.last_needle@.len() <= vstd::utf8::encode_utf8(needle).len()
                &&& forall|i: int|
                    0 <= i < state.last_needle@.len() ==> #[trigger] state.last_needle@[i]
                        == vstd::utf8::encode_utf8(needle)[i]
            },
        },
{
    let cut = search::needle_bytes(needle);
    law_grids_cover(state.tables.item_count as int);
    law_grids_cover(state.tables.thread_count as int);
    lemma_grid_fits(state.tables.item_count as int);
    lemma_grid_fits(state.tables.thread_count as int);
    if plan.prefilter is Survivors {
        let last = state.last_needle@;
        assert forall|i: int| 0 <= i < last.len() implies #[trigger] last[i]
            == vstd::utf8::encode_utf8(needle)[i] by {
            assert(last =~= cut.subrange(0, last.len() as int));
            assert(last[i] == cut[i]);
        }
    }
}

proof fn lemma_grid_fits(count: int)
    requires
        0 <= count <= u32::MAX,
    ensures
        0 <= pack::grid_of(search::blocks_of(count)).0 <= u32::MAX,
        0 <= pack::grid_of(search::blocks_of(count)).1 <= u32::MAX,
{
    let n = search::blocks_of(count);
    let (x, y) = pack::grid_of(n);
    assert(0 <= y <= n) by (nonlinear_arith)
        requires
            1 <= x,
            x <= n || (n == 0 && x == 1),
            y == (n + x - 1) / x,
    ;
}

/// The shader that scores is the one of the kernel; the subgroup kernel leaves
/// short needles to the scalar shader, and lengths that it cannot take to the
/// one that takes any.
pub proof fn law_shaders_are_those_of_the_kernel(
    state: MatcherState,
    needle: Seq<char>,
    scoring: Scoring,
    use_subgroup: bool,
    top_k: Option<u32>,
    plan: SearchPlan,
)
    requires
        is_plan(state, needle, scoring, use_subgroup, top_k, plan),
        use_subgroup == state.takes_subgroup(plan.params.needle_len as int),
    ensures
        state.kernel == Kernel::ThreadPerItem ==> plan.scorer == Scorer::Item,
        state.kernel == Kernel::Scalar ==> plan.scorer == Scorer::Scalar,
        state.kernel == Kernel::LanePerThread ==> plan.scorer == Scorer::Lanes,
        state.kernel == Kernel::Subgroup ==> {
            &&& plan.params.needle_len <= state.scalar_max ==> plan.scorer == Scorer::Scalar
            &&& plan.params.needle_len > state.scalar_max && !state.unsupported@.contains(
                plan.params.needle_len as usize,
            ) ==> plan.scorer == Scorer::Subgroup
            &&& plan.params.needle_len > state.scalar_max && state.unsupported@.contains(
                plan.params.needle_len as usize,
            ) ==> plan.scorer == Scorer::Lanes
        },
        plan.scorer == Scorer::Scalar ==> plan.score_at == 12,
        plan.scorer != Scorer::Scalar ==> plan.score_at == 0,
{
}

/// Survivors are written where the next search reads them, not where this one
/// does.
pub proof fn law_survivors_change_places(
    before: MatcherState,
    after: MatcherState,
    needle: Seq<char>,
    scoring: Scoring,
    use_subgroup: bool,
    top_k: Option<u32>,
    plan: SearchPlan,
)
    requires
        is_plan(before, needle, scoring, use_subgroup, top_k, plan),
        before.kernel != Kernel::ThreadPerItem,
        after.cur == 1 - before.cur,
    ensures
        plan.set != before.cur,
        plan.set == after.cur,
        plan.set < 2,
{
}

/// Boosts are the uses of a file, and fifteen more while it is changed.
pub proof fn law_boosts_are_uses(file: FileItem)
    ensures
        !file.git_modified ==> index::boost_of(file) == file.access_frecency_score
            + file.modification_frecency_score,
        file.git_modified ==> index::boost_of(file) == file.access_frecency_score
            + file.modification_frecency_score + 15,
{
}

/// An index is kept where it covers all files, goes on where it stopped where
/// files came behind, and is built anew where its base is another, it covers
/// more than there is, or there is none.
pub proof fn law_refresh_covers_all_files(
    index: Option<IndexState>,
    base_key: (usize, usize),
    n: usize,
)
    ensures
        match index::refresh_of(index, base_key, n as int) {
            Refresh::Keep => index is Some && index->0.base_key == base_key && index->0.indexed
                == n,
            Refresh::Append { from } => index is Some && index->0.base_key == base_key
                && index->0.indexed == from && from < n,
            Refresh::Rebuild => index is None || index->0.base_key != base_key || index->0.indexed
                > n,
        },
{
}

/// Boosts are sent with every change of the index, and whenever they are not
/// those that were sent last.
pub proof fn law_stale_boosts_are_sent(index: IndexState, refresh: Refresh, generation: u64)
    ensures
        refresh != Refresh::Keep ==> index::sends_boosts(Some(index), refresh, generation as int),
        refresh == Refresh::Keep ==> (index::sends_boosts(Some(index), refresh, generation as int)
            <==> index.boost_gen != generation),
        0 <= index::next_boost_gen(generation as int) <= u64::MAX,
        index::next_boost_gen(generation as int) != generation,
{
}

proof fn lemma_ranking<T, R: Ranking<T>>(items: Seq<T>, ranking: R, out: Seq<T>, x: int, y: int)
    requires
        topk::is_ranking_of(items, ranking, out),
        0 <= x < y < out.len(),
    ensures
        ranking.le(out[x], out[y]),
{
    let order = choose|order: Seq<usize>| #[trigger]
        sorting::is_stable_order(items, ranking, order) && out == sorting::permuted(items, order);
    sorting::lemma_stable_order_ranks(items, ranking, order);
}

/// The best items of a full readback: each is an item with the score that was
/// read for it, none without a score is among them, higher scores come first,
/// lower ids first among equals, and whatever is left out is no better.
pub proof fn law_best_scores_come_first(scores: Seq<u32>, k: int, out: Seq<(u32, u32)>)
    requires
        scores.len() <= u32::MAX,
        scores.len() <= usize::MAX,
        0 <= k,
        topk::is_best(
            topk::scored_ids(scores, scores.len() as int),
            ScoreRanking {  },
            k,
            out,
        ),
    ensures
        out.len() <= k,
        forall|x: int|
            0 <= x < out.len() ==> (#[trigger] out[x]).1 < scores.len() && scores[out[x].1 as int]
                == out[x].0 && out[x].0 > 0,
        forall|x: int, y: int|
            0 <= x < y < out.len() ==> (#[trigger] out[x]).0 > (#[trigger] out[y]).0 || (out[x].0
                == out[y].0 && out[x].1 < out[y].1),
        forall|i: int|
            #![trigger scores[i]]
            0 <= i < scores.len() && scores[i] > 0 && !out.contains((scores[i], i as u32))
                ==> out.len() == k && forall|x: int|
                0 <= x < out.len() ==> (#[trigger] out[x]).0 > scores[i] || (out[x].0 == scores[i]
                    && out[x].1 < i),
{
    let items = topk::scored_ids(scores, scores.len() as int);
    topk::lemma_scored_ids(scores, scores.len() as int);
    assert(items.no_duplicates()) by {
        assert forall|x: int, y: int|
            0 <= x < items.len() && 0 <= y < items.len() && x != y implies items[x] != items[y] by {
            if x < y {
                assert(items[x].1 < items[y].1);
            } else {
                assert(items[y].1 < items[x].1);
            }
        }
    }
    topk::lemma_best_is_top(items, k, out);
    assert forall|x: int| 0 <= x < out.len() implies (#[trigger] out[x]).1 < scores.len()
        && scores[out[x].1 as int] == out[x].0 && out[x].0 > 0 by {
        assert(items.contains(out[x]));
        let y = choose|y: int| 0 <= y < items.len() && items[y] == out[x];
        assert(items[y].1 < scores.len());
    }
    assert forall|x: int, y: int| 0 <= x < y < out.len() implies (#[trigger] out[x]).0 > (
    #[trigger] out[y]).0 || (out[x].0 == out[y].0 && out[x].1 < out[y].1) by {
        assert(topk::outranks(out[x], out[y]));
    }
    assert forall|i: int|
        #![trigger scores[i]]
        0 <= i < scores.len() && scores[i] > 0 && !out.contains((scores[i], i as u32)) implies out.len()
        == k && forall|x: int|
        0 <= x < out.len() ==> (#[trigger] out[x]).0 > scores[i] || (out[x].0 == scores[i]
            && out[x].1 < i) by {
        lemma_scored_contains(scores, scores.len() as int, i);
        let p = (scores[i], i as u32);
        assert(items.contains(p) && !out.contains(p));
        assert(topk::ranks_behind(out, p));
        assert forall|x: int| 0 <= x < out.len() implies (#[trigger] out[x]).0 > scores[i] || (
        out[x].0 == scores[i] && out[x].1 < i) by {
            assert(topk::outranks(out[x], p));
        }
    }
}

proof fn lemma_scored_contains(scores: Seq<u32>, n: int, i: int)
    requires
        0 <= i < n <= scores.len() <= u32::MAX,
        scores[i] > 0,
    ensures
        topk::scored_ids(scores, n).contains((scores[i], i as u32)),
    decreases n,
{
    let all = topk::scored_ids(scores, n);
    if n - 1 > i {
        lemma_scored_contains(scores, n - 1, i);
        let before = topk::scored_ids(scores, n - 1);
        let t = choose|t: int| 0 <= t < before.len() && before[t] == (scores[i], i as u32);
        assert(all[t] == (scores[i], i as u32));
    } else {
        assert(all[all.len() - 1] == (scores[i], i as u32));
    }
}

/// Each entry of a selection goes with its own meta: those above the threshold
/// come first, best first, and those at it fill up what is still wanted, lowest
/// ids first.
pub proof fn law_selections_are_filled_up_in_order(
    selection: Selection,
    out: Seq<(u32, u32, u32)>,
    ties: Seq<(u32, u32)>,
    r: TopK,
)
    requires
        topk::is_ranking_of(out, EntryRanking {  }, selection.top@),
        readback::is_finished(selection, ties, r),
    ensures
        ({
            let n = selection.top@.len() as int;
            &&& r.entries@.len() == r.meta@.len()
            &&& n <= r.entries@.len() <= n + selection.need
            &&& r.entries@.len() == n + ties.len() || r.entries@.len() == n + selection.need
            &&& r.matched == selection.matched
            &&& forall|i: int|
                0 <= i < n ==> (#[trigger] r.entries@[i]).0 == selection.top@[i].0
                    && r.entries@[i].1 == selection.top@[i].1 && r.meta@[i] == selection.top@[i].2
            &&& forall|i: int, j: int|
                0 <= i < j < n ==> (#[trigger] r.entries@[i]).0 > (#[trigger] r.entries@[j]).0 || (
                r.entries@[i].0 == r.entries@[j].0 && r.entries@[i].1 <= r.entries@[j].1)
            &&& forall|i: int|
                n <= i < r.entries@.len() ==> (#[trigger] r.entries@[i]).0 == selection.threshold
                    && ties.contains((r.entries@[i].1, r.meta@[i]))
            &&& forall|i: int, j: int|
                n <= i < j < r.entries@.len() ==> (#[trigger] r.entries@[i]).1 <= (
                #[trigger] r.entries@[j]).1
        }),
{
    let n = selection.top@.len() as int;
    let chosen = choose|chosen: Seq<(u32, u32)>| #[trigger]
        readback::is_filled_up(selection, chosen, r) && topk::is_best(
            ties,
            TieRanking {  },
            selection.need as int,
            chosen,
        );
    let all = choose|all: Seq<(u32, u32)>| #[trigger]
        topk::is_ranking_of(ties, TieRanking {  }, all) && chosen == all.take(
            topk::lesser(selection.need as int, ties.len() as int),
        );
    let order = choose|order: Seq<usize>| #[trigger]
        sorting::is_stable_order(ties, TieRanking {  }, order) && all == sorting::permuted(
            ties,
            order,
        );
    assert(all.len() == ties.len());
    assert forall|i: int, j: int| 0 <= i < j < n implies (#[trigger] r.entries@[i]).0 > (
    #[trigger] r.entries@[j]).0 || (r.entries@[i].0 == r.entries@[j].0 && r.entries@[i].1
        <= r.entries@[j].1) by {
        lemma_ranking(out, EntryRanking {  }, selection.top@, i, j);
    }
    assert forall|i: int| n <= i < r.entries@.len() implies (#[trigger] r.entries@[i]).0
        == selection.threshold && ties.contains((r.entries@[i].1, r.meta@[i])) by {
        let t = i - n;
        assert(r.entries@[i].1 == chosen[t].0 && r.meta@[i] == chosen[t].1);
        assert(chosen[t] == ties[order[t] as int]);
        assert(order[t] < ties.len());
    }
    assert forall|i: int, j: int| n <= i < j < r.entries@.len() implies (
    #[trigger] r.entries@[i]).1 <= (#[trigger] r.entries@[j]).1 by {
        lemma_ranking(ties, TieRanking {  }, all, i - n, j - n);
        assert(r.entries@[i].1 == all[i - n].0 && r.entries@[j].1 == all[j - n].0);
    }
}

/// The parts of a selection follow each other without a gap: four words, the
/// entries above the threshold, those at it, the counts of their buckets, and the
/// number of matches.
pub proof fn law_parts_of_a_selection_follow_each_other()
    ensures
        readback::TIES_AT == 4 + readback::OUT_CAP * readback::OUT_STRIDE,
        readback::BUCKETS_AT == readback::TIES_AT + readback::TIE_CAP * readback::TIE_STRIDE,
        readback::MATCHED_AT == readback::BUCKETS_AT + readback::TIE_BUCKETS,
        readback::TOPK_WORDS == readback::MATCHED_AT + 1,
        readback::TIE_BLOCK_WORDS == 1 + readback::TIE_CAP * readback::TIE_STRIDE,
        readback::OUT_CAP == 1024,
        readback::TIE_CAP == 16 * readback::OUT_CAP,
        readback::TIE_BUCKETS == 4096,
{
}

/// An entry above the threshold is read as a score, an id and a meta, one at it
/// as an id and a meta, each from its own words; no more are read than there is
/// room for.
pub proof fn law_entries_are_read_in_order(words: Seq<u32>, at: int, n: int, i: int)
    requires
        0 <= n,
    ensures
        readback::out_entries(words).len() <= readback::OUT_CAP,
        words[2] <= readback::OUT_CAP ==> readback::out_entries(words).len() == words[2],
        0 <= i < readback::out_entries(words).len() ==> {
            let first = 4 + readback::OUT_STRIDE * i;
            readback::out_entries(words)[i] == (words[first], words[first + 1], words[first + 2])
        },
        readback::tie_entries(words, at, n).len() == n,
        0 <= i < n ==> {
            let first = at + readback::TIE_STRIDE * i;
            readback::tie_entries(words, at, n)[i] == (words[first], words[first + 1])
        },
{
}

/// The bucket up to which entries at the threshold are fetched holds enough of
/// them, where there are enough; with one bucket less there are too few.
pub proof fn law_buckets_hold_enough(words: Seq<u32>, need: int, bucket: int)
    requires
        readback::is_tie_bucket(words, need, bucket),
    ensures
        0 <= bucket < 4096,
        bucket < 4095 ==> readback::ties_in(words, bucket + 1) >= need,
        bucket > 0 ==> readback::ties_in(words, bucket) < need,
        readback::ties_in(words, bucket + 1) == readback::ties_in(words, bucket)
            + words[readback::BUCKETS_AT + bucket],
{
    if bucket > 0 {
        assert(readback::ties_in(words, (bucket - 1) + 1) < need);
    }
}

/// As many entries at the threshold are wanted as those above it leave of `k`.
pub proof fn law_selections_want_what_is_missing(k: int, above: int)
    requires
        0 <= k,
        0 <= above,
    ensures
        above <= k ==> above + readback::wanted(k, above) == k,
        above >= k ==> readback::wanted(k, above) == 0,
{
}

/// Hits keep their scores, and their ids are counted on from the offset.
pub proof fn law_hits_keep_their_scores(hits: Seq<Hit>, offset: int, i: int)
    requires
        0 <= i < hits.len(),
        0 <= hits[i].index + offset <= u32::MAX,
    ensures
        topk::hit_pairs(hits, offset).len() == hits.len(),
        topk::hit_pairs(hits, offset)[i].0 == hits[i].score,
        topk::hit_pairs(hits, offset)[i].1 - offset == hits[i].index,
{
}

/// What is appended stands behind what is there, and nothing that is there is
/// written over; every table grows by what it was sent.
pub proof fn law_appended_paths_stand_behind(
    paths: Seq<String>,
    fname_off: Option<&[u32]>,
    sort: bool,
    before: Tables,
    after: Tables,
    upload: Upload,
    i: int,
)
    requires
        pack::packs(paths, before.hay_words as int, before.item_count as int, sort),
        matcher::is_upload(paths, fname_off, sort, before, upload),
        matcher::is_loaded(before, after, paths.len(), upload),
        0 <= i < paths.len(),
    ensures
        upload.items_at == before.item_count,
        after.item_count == before.item_count + upload.items@.len(),
        upload.hay_at == before.hay_words,
        after.hay_words == before.hay_words + upload.hay@.len(),
        upload.soa_at == before.soa_words,
        after.soa_words == before.soa_words + upload.soa@.len(),
        upload.ids_at == before.thread_count,
        after.thread_count == before.thread_count + upload.soa_ids@.len(),
        upload.items@[i]@[0] % 4 == 0,
        upload.items@[i]@[0] >= 4 * upload.hay_at,
        upload.items@[i]@[1] == vstd::utf8::encode_utf8(paths[i]@).len(),
        upload.items@[i]@[0] + upload.items@[i]@[1] <= 4 * (upload.hay_at + upload.hay@.len() - 1),
        i + 1 < paths.len() ==> upload.items@[i]@[0] + upload.items@[i]@[1] <= upload.items@[i
            + 1]@[0] < upload.items@[i]@[0] + upload.items@[i]@[1] + 4,
        fname_off is None ==> upload.fname@.len() == paths.len() && upload.fname@[i] == u32::MAX,
        fname_off matches Some(given) ==> upload.fname@ == given@,
{
    let n = paths.len() as int;
    lemma_packed(paths, i, n);
    lemma_packed(paths, i + 1, n);
    assert(upload.items@[i]@ == pack::packed_item(paths, i, before.hay_words as int)@);
    if i + 1 < n {
        assert(upload.items@[i + 1]@ == pack::packed_item(paths, i + 1, before.hay_words as int)@);
    }
}

/// Wherever it was put, a thread finds word `w` of an appended path sixty-four
/// words behind the one before, starting where it is told; its id goes on from
/// those that are there.
pub proof fn law_appended_paths_are_found_by_their_threads(
    paths: Seq<String>,
    fname_off: Option<&[u32]>,
    sort: bool,
    before: Tables,
    upload: Upload,
    i: int,
    w: int,
) -> (t: int)
    requires
        matcher::can_load(paths, sort, before),
        matcher::is_upload(paths, fname_off, sort, before, upload),
        paths.len() <= usize::MAX,
        0 <= i < paths.len(),
        0 <= w,
        4 * w < vstd::utf8::encode_utf8(paths[i]@).len(),
    ensures
        upload.soa_start@.len() == paths.len(),
        upload.soa_start@[i] >= upload.soa_at,
        upload.soa_start@[i] - upload.soa_at + 64 * w < upload.soa@.len(),
        upload.soa@[upload.soa_start@[i] - upload.soa_at + 64 * w] == pack::word_at(
            vstd::utf8::encode_utf8(paths[i]@),
            w,
        ),
        0 <= t < upload.soa_ids@.len(),
        upload.soa_ids@[t] == before.item_count + i,
{
    let (order, starts) = choose|order: Seq<usize>, starts: Seq<u32>| #[trigger]
        pack::is_soa(
            paths,
            order,
            before.item_count as int,
            upload.soa@,
            starts,
            upload.soa_ids@,
        ) && pack::is_thread_order(paths, order, sort) && upload.soa_start@ == matcher::moved(
            starts,
            before.soa_words as int,
        );
    lemma_found_by_thread(
        paths,
        order,
        before.item_count as int,
        upload.soa@,
        starts,
        upload.soa_ids@,
        i,
        w,
    )
}

proof fn lemma_found_by_thread(
    paths: Seq<String>,
    order: Seq<usize>,
    id0: int,
    soa: Seq<u32>,
    starts: Seq<u32>,
    ids: Seq<u32>,
    i: int,
    w: int,
) -> (t: int)
    requires
        pack::is_soa(paths, order, id0, soa, starts, ids),
        sorting::is_permutation(order, paths.len()),
        paths.len() <= usize::MAX,
        0 <= i < paths.len(),
        0 <= w < pack::words_for(pack::path_bytes(paths, i).len() as int),
    ensures
        starts.len() == paths.len(),
        starts[i] + 64 * w < soa.len(),
        soa.len() == pack::group_base(paths, order, pack::group_count(paths.len() as int)),
        soa[starts[i] + 64 * w] == pack::word_at(pack::path_bytes(paths, i), w),
        0 <= t < ids.len(),
        ids[t] == id0 + i,
{
    sorting::lemma_permutation_covers(order, paths.len(), i as usize);
    let t = choose|t: int| 0 <= t < order.len() && order[t] == i as usize;
    pack::law_threads_read_their_path(paths, order, id0, soa, starts, ids, t, w);
    lemma_soa_len(paths, order, pack::group_count(paths.len() as int));
    t
}

proof fn lemma_longest_nonneg(paths: Seq<String>, order: Seq<usize>, t: int, end: int)
    ensures
        pack::longest_words(paths, order, t, end) >= 0,
    decreases end - t,
{
    if t < end {
        lemma_longest_nonneg(paths, order, t, end - 1);
    }
}

proof fn lemma_soa_len(paths: Seq<String>, order: Seq<usize>, g: int)
    ensures
        pack::soa_words(paths, order, g).len() == pack::group_base(paths, order, g),
    decreases g,
{
    if g > 0 {
        lemma_soa_len(paths, order, g - 1);
        lemma_longest_nonneg(
            paths,
            order,
            (g - 1) * 64,
            pack::group_end(g - 1, paths.len() as int),
        );
    }
}

/// A word holds four bytes, the first of them in its lowest bits; what is behind
/// the end of the text counts as zero.
pub proof fn law_words_hold_four_bytes(b: Seq<u8>, w: int)
    requires
        0 <= w,
        4 * w < b.len(),
    ensures
        ({
            let at = |k: int|
                if 4 * w + k < b.len() {
                    b[4 * w + k] as int
                } else {
                    0
                };
            pack::word_at(b, w) == at(0) + 256 * at(1) + 65536 * at(2) + 16777216 * at(3)
        }),
{
    reveal_with_fuel(bytes::le_value, 5);
    let part = if 4 * w + 4 > b.len() {
        b.skip(4 * w)
    } else {
        b.subrange(4 * w, 4 * w + 4)
    };
    let p1 = part.drop_first();
    let p2 = p1.drop_first();
    let p3 = p2.drop_first();
    assert(part.len() > 1 ==> p1[0] == b[4 * w + 1]);
    assert(part.len() > 2 ==> p2[0] == b[4 * w + 2]);
    assert(part.len() > 3 ==> p3[0] == b[4 * w + 3]);
}

proof fn lemma_packed(paths: Seq<String>, i: int, n: int)
    requires
        0 <= i <= n <= paths.len(),
    ensures
        pack::packed_words(paths, i).len() <= pack::packed_words(paths, n).len(),
        i < n ==> 4 * pack::packed_words(paths, i).len() + vstd::utf8::encode_utf8(paths[i]@).len()
            <= 4 * pack::packed_words(paths, n).len(),
    decreases n,
{
    if i < n - 1 {
        lemma_packed(paths, i, n - 1);
    }
}

} // verus!
