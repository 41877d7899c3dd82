//! What comes back from the GPU.

use crate::gpu::topk;
use crate::gpu::topk::EntryRanking;
use crate::gpu::topk::TieRanking;
use crate::gpu::topk::TopK;
use crate::sorting;
use vstd::prelude::*;

verus! {

/// Entries above the threshold that a selection can hold.
pub const OUT_CAP: usize = 1024;

/// Entries at the threshold that a selection can hold.
pub const TIE_CAP: usize = 16384;

/// Id buckets in which entries at the threshold are counted.
pub const TIE_BUCKETS: usize = 4096;

/// Words of an entry above the threshold.
pub const OUT_STRIDE: usize = 4;

/// Words of an entry at the threshold.
pub const TIE_STRIDE: usize = 2;

/// Where the entries at the threshold start.
pub const TIES_AT: usize = 4100;

/// Where the bucket counts start.
pub const BUCKETS_AT: usize = 36868;

/// Where the number of matches stands.
pub const MATCHED_AT: usize = 40964;

/// Words of a whole selection.
pub const TOPK_WORDS: usize = 40965;

/// Words of the entries at the threshold with their number in front.
pub const TIE_BLOCK_WORDS: usize = 32769;

/// What a selection holds besides the entries at the threshold.
pub struct Selection {
    /// Score of the last entry that gets in.
    pub threshold: u32,
    /// Entries above the threshold: score, id, meta.
    pub top: Vec<(u32, u32, u32)>,
    /// Entries at the threshold that are still wanted.
    pub need: usize,
    /// Paths that matched at all.
    pub matched: u32,
}

/// The entries at the threshold, or where to look for them.
pub enum Ties {
    /// All of them: id, meta.
    Read(Vec<(u32, u32)>),
    /// There are too many: fetch those up to this id bucket.
    Oversized { bucket: u32 },
}

/// Entries above the threshold, as they come.
pub open spec fn out_entries(words: Seq<u32>) -> Seq<(u32, u32, u32)> {
    Seq::new(
        topk::lesser(words[2] as int, OUT_CAP as int) as nat,
        |i: int| (words[4 + 4 * i], words[5 + 4 * i], words[6 + 4 * i]),
    )
}

/// `n` entries at the threshold, starting at a word.
pub open spec fn tie_entries(words: Seq<u32>, at: int, n: int) -> Seq<(u32, u32)> {
    Seq::new(n as nat, |i: int| (words[at + 2 * i], words[at + 2 * i + 1]))
}

/// Entries at the threshold in the first `b` buckets.
pub open spec fn ties_in(words: Seq<u32>, b: int) -> int
    decreases b,
{
    if b <= 0 {
        0
    } else {
        ties_in(words, b - 1) + words[BUCKETS_AT + b - 1]
    }
}

/// The first bucket up to which there are `need` entries; the last bucket if
/// there are fewer.
pub open spec fn is_tie_bucket(words: Seq<u32>, need: int, bucket: int) -> bool {
    &&& 0 <= bucket < TIE_BUCKETS
    &&& forall|b: int| 0 <= b < bucket ==> (#[trigger] ties_in(words, b + 1)) < need
    &&& ties_in(words, bucket + 1) >= need || bucket == TIE_BUCKETS - 1
}

pub open spec fn wanted(k: int, n: int) -> int {
    if k > n {
        k - n
    } else {
        0
    }
}

fn read_out(words: &[u32]) -> (r: Vec<(u32, u32, u32)>)
    requires
        words@.len() >= TIES_AT,
    ensures
        r@ == out_entries(words@),
{
    let n: usize = if words[2] as u64 > OUT_CAP as u64 {
        OUT_CAP
    } else {
        words[2] as usize
    };
    let mut out: Vec<(u32, u32, u32)> = Vec::new();
    let mut i: usize = 0;
    while i < n
        invariant
            words@.len() >= TIES_AT,
            i <= n == out_entries(words@).len(),
            n <= OUT_CAP,
            out@.len() == i,
            forall|j: int| 0 <= j < i ==> out@[j] == out_entries(words@)[j],
        decreases n - i,
    {
        out.push((words[4 + 4 * i], words[5 + 4 * i], words[6 + 4 * i]));
        i += 1;
    }
    assert(out@ =~= out_entries(words@));
    out
}

fn read_pairs(words: &[u32], at: usize, n: usize) -> (r: Vec<(u32, u32)>)
    requires
        at + 2 * n <= words@.len(),
    ensures
        r@ == tie_entries(words@, at as int, n as int),
{
    let len: usize = words.len();
    let mut out: Vec<(u32, u32)> = Vec::new();
    let mut i: usize = 0;
    while i < n
        invariant
            at + 2 * n <= words@.len() == len,
            i <= n,
            out@.len() == i,
            forall|j: int|
                0 <= j < i ==> out@[j] == tie_entries(words@, at as int, n as int)[j],
        decreases n - i,
    {
        out.push((words[at + 2 * i], words[at + 2 * i + 1]));
        i += 1;
    }
    assert(out@ =~= tie_entries(words@, at as int, n as int));
    out
}

/// Reads a selection of `k` entries, except for those at the threshold.
pub fn read_selection(words: &[u32], k: u32) -> (r: Selection)
    requires
        words@.len() == TOPK_WORDS,
    ensures
        r.threshold == words@[0],
        topk::is_ranking_of(out_entries(words@), EntryRanking {  }, r.top@),
        r.top@.len() == out_entries(words@).len(),
        r.need == wanted(k as int, out_entries(words@).len() as int),
        r.matched == words@[MATCHED_AT as int],
{
    let out = read_out(words);
    let top = topk::rank(&out, &EntryRanking {  });
    let need: usize = if (k as usize) > top.len() {
        k as usize - top.len()
    } else {
        0
    };
    Selection { threshold: words[0], top, need, matched: words[MATCHED_AT] }
}

fn tie_bucket(words: &[u32], need: usize) -> (bucket: u32)
    requires
        words@.len() == TOPK_WORDS,
    ensures
        is_tie_bucket(words@, need as int, bucket as int),
{
    let mut acc: u64 = 0;
    let mut b: u32 = 0;
    while b < TIE_BUCKETS as u32 - 1
        invariant
            words@.len() == TOPK_WORDS,
            b <= TIE_BUCKETS - 1,
            acc == ties_in(words@, b as int),
            acc <= b * u32::MAX,
            forall|c: int| 0 <= c < b ==> (#[trigger] ties_in(words@, c + 1)) < need,
        decreases TIE_BUCKETS - 1 - b,
    {
        acc = acc + words[BUCKETS_AT + b as usize] as u64;
        assert(acc == ties_in(words@, b + 1));
        if acc >= need as u64 {
            return b;
        }
        b += 1;
    }
    b
}

/// Reads the entries at the threshold of a selection.
pub fn read_ties(words: &[u32], need: usize) -> (r: Ties)
    requires
        words@.len() == TOPK_WORDS,
    ensures
        match r {
            Ties::Read(ties) => words@[3] <= TIE_CAP && ties@ == tie_entries(
                words@,
                TIES_AT as int,
                words@[3] as int,
            ),
            Ties::Oversized { bucket } => words@[3] > TIE_CAP && is_tie_bucket(
                words@,
                need as int,
                bucket as int,
            ),
        },
{
    if words[3] as u64 <= TIE_CAP as u64 {
        Ties::Read(read_pairs(words, TIES_AT, words[3] as usize))
    } else {
        Ties::Oversized { bucket: tie_bucket(words, need) }
    }
}

/// Reads entries at the threshold that were fetched on their own; their
/// number stands in front.
pub fn read_tie_block(words: &[u32]) -> (r: Vec<(u32, u32)>)
    requires
        words@.len() == TIE_BLOCK_WORDS,
    ensures
        r@ == tie_entries(words@, 1, topk::lesser(words@[0] as int, TIE_CAP as int)),
{
    let n: usize = if words[0] as u64 > TIE_CAP as u64 {
        TIE_CAP
    } else {
        words[0] as usize
    };
    read_pairs(words, 1, n)
}

/// Entries at the threshold as result entries.
pub open spec fn at_threshold(threshold: u32, ties: Seq<(u32, u32)>) -> Seq<(u32, u32)> {
    Seq::new(ties.len(), |i: int| (threshold, ties[i].0))
}

pub open spec fn scores_and_ids(top: Seq<(u32, u32, u32)>) -> Seq<(u32, u32)> {
    Seq::new(top.len(), |i: int| (top[i].0, top[i].1))
}

pub open spec fn metas(top: Seq<(u32, u32, u32)>) -> Seq<u32> {
    Seq::new(top.len(), |i: int| top[i].2)
}

pub open spec fn tie_metas(ties: Seq<(u32, u32)>) -> Seq<u32> {
    Seq::new(ties.len(), |i: int| ties[i].1)
}

/// A selection filled up with the `chosen` entries at the threshold.
pub open spec fn is_filled_up(selection: Selection, chosen: Seq<(u32, u32)>, r: TopK) -> bool {
    &&& r.entries@ == scores_and_ids(selection.top@) + at_threshold(selection.threshold, chosen)
    &&& r.meta@ == metas(selection.top@) + tie_metas(chosen)
    &&& r.matched == selection.matched
}

/// The result is the selection filled up with the first entries at the
/// threshold.
pub open spec fn is_finished(selection: Selection, ties: Seq<(u32, u32)>, r: TopK) -> bool {
    exists|chosen: Seq<(u32, u32)>| #[trigger]
        is_filled_up(selection, chosen, r) && topk::is_best(
            ties,
            TieRanking {  },
            selection.need as int,
            chosen,
        )
}

/// Fills a selection up with the lowest ids at the threshold.
pub fn finish_selection(selection: &Selection, ties: &Vec<(u32, u32)>) -> (r: TopK)
    ensures
        is_finished(*selection, ties@, r),
{
    let chosen = topk::best(ties, &TieRanking {  }, selection.need);
    let mut entries: Vec<(u32, u32)> = Vec::new();
    let mut meta: Vec<u32> = Vec::new();
    let mut i: usize = 0;
    while i < selection.top.len()
        invariant
            i <= selection.top@.len(),
            entries@ == scores_and_ids(selection.top@).take(i as int),
            meta@ == metas(selection.top@).take(i as int),
        decreases selection.top@.len() - i,
    {
        let e = selection.top[i];
        entries.push((e.0, e.1));
        meta.push(e.2);
        assert(entries@ =~= scores_and_ids(selection.top@).take(i + 1));
        assert(meta@ =~= metas(selection.top@).take(i + 1));
        i += 1;
    }
    assert(entries@ =~= scores_and_ids(selection.top@));
    assert(meta@ =~= metas(selection.top@));
    let ghost first = entries@;
    let ghost first_meta = meta@;
    let mut j: usize = 0;
    assert(entries@ =~= first + at_threshold(selection.threshold, chosen@).take(0));
    assert(meta@ =~= first_meta + tie_metas(chosen@).take(0));
    while j < chosen.len()
        invariant
            j <= chosen@.len(),
            entries@ == first + at_threshold(selection.threshold, chosen@).take(j as int),
            meta@ == first_meta + tie_metas(chosen@).take(j as int),
        decreases chosen@.len() - j,
    {
        entries.push((selection.threshold, chosen[j].0));
        meta.push(chosen[j].1);
        assert(entries@ =~= first + at_threshold(selection.threshold, chosen@).take(j + 1));
        assert(meta@ =~= first_meta + tie_metas(chosen@).take(j + 1));
        j += 1;
    }
    let r = TopK { entries, meta, matched: selection.matched };
    assert(r.entries@ =~= scores_and_ids(selection.top@) + at_threshold(
        selection.threshold,
        chosen@,
    ));
    assert(r.meta@ =~= metas(selection.top@) + tie_metas(chosen@));
    assert(is_filled_up(*selection, chosen@, r));
    r
}

/// Scores and metas of `n` items, as they come back.
pub fn split_scores(words: &[u32], n: usize) -> (r: (Vec<u32>, Vec<u32>))
    requires
        n > 0 ==> words@.len() >= 2 * n,
    ensures
        r.0@ == words@.subrange(0, n as int),
        r.1@ == words@.subrange(n as int, 2 * n),
{
    if n == 0 {
        let none: Vec<u32> = Vec::new();
        let no_meta: Vec<u32> = Vec::new();
        assert(none@ =~= words@.subrange(0, 0));
        return (none, no_meta);
    }
    let len: usize = words.len();
    let scores = vstd::slice::slice_subrange(words, 0, n);
    let meta = vstd::slice::slice_subrange(words, n, n + n);
    (vstd::slice::slice_to_vec(scores), vstd::slice::slice_to_vec(meta))
}

/// Metas of the entries.
pub open spec fn metas_of(meta: Seq<u32>, entries: Seq<(u32, u32)>) -> Seq<u32> {
    Seq::new(entries.len(), |i: int| meta[entries[i].1 as int])
}

/// The best `k` items of a full readback.
pub fn select_scores(scores: &[u32], meta: &[u32], k: usize) -> (r: TopK)
    requires
        scores@.len() <= u32::MAX,
        meta@.len() == scores@.len(),
        k > 0 || topk::scored_ids(scores@, scores@.len() as int).len() == 0,
    ensures
        topk::is_best(
            topk::scored_ids(scores@, scores@.len() as int),
            topk::ScoreRanking {  },
            k as int,
            r.entries@,
        ),
        r.meta@ == metas_of(meta@, r.entries@),
        r.matched == topk::scored_ids(scores@, scores@.len() as int).len(),
{
    let ghost scored = topk::scored_ids(scores@, scores@.len() as int);
    let entries = topk::top_k_scores(scores, k);
    proof {
        topk::lemma_scored_ids(scores@, scores@.len() as int);
        topk::lemma_best_from(scored, topk::ScoreRanking {  }, k as int, entries@);
    }
    let mut metas: Vec<u32> = Vec::new();
    let mut i: usize = 0;
    while i < entries.len()
        invariant
            i <= entries@.len(),
            meta@.len() == scores@.len(),
            forall|x: int| 0 <= x < entries@.len() ==> (#[trigger] entries@[x]).1 < scores@.len(),
            metas@ == metas_of(meta@, entries@).take(i as int),
        decreases entries@.len() - i,
    {
        metas.push(meta[entries[i].1 as usize]);
        assert(metas@ =~= metas_of(meta@, entries@).take(i + 1));
        i += 1;
    }
    assert(metas@ =~= metas_of(meta@, entries@));
    TopK { entries, meta: metas, matched: topk::count_scored(scores) }
}

/// The shaders picked what a selection says: everything above the threshold,
/// and everything at it.
pub open spec fn is_picked(
    items: Seq<(u32, u32)>,
    k: int,
    threshold: u32,
    out: Seq<(u32, u32, u32)>,
    ties: Seq<(u32, u32)>,
) -> bool {
    &&& items.no_duplicates()
    &&& scores_and_ids(out).no_duplicates()
    &&& forall|i: int, j: int|
        0 <= i < j < ties.len() ==> (#[trigger] ties[i]).0 != (#[trigger] ties[j]).0
    &&& forall|p: (u32, u32)|
        (#[trigger] scores_and_ids(out).contains(p)) <==> items.contains(p) && p.0 > threshold
    &&& forall|p: (u32, u32)|
        (#[trigger] at_threshold(threshold, ties).contains(p)) <==> items.contains(p) && p.0
            == threshold
    &&& out.len() <= k
    &&& out.len() + ties.len() >= k || forall|p: (u32, u32)| #[trigger]
        items.contains(p) ==> p.0 >= threshold
}

/// Where the shaders picked what they should, a selection filled up with its
/// ties holds the best results of all.
pub proof fn law_selection_is_best(
    items: Seq<(u32, u32)>,
    k: int,
    selection: Selection,
    out: Seq<(u32, u32, u32)>,
    ties: Seq<(u32, u32)>,
    r: TopK,
    whole: Seq<(u32, u32)>,
)
    requires
        items.len() <= usize::MAX,
        out.len() <= usize::MAX,
        ties.len() <= usize::MAX,
        is_picked(items, k, selection.threshold, out, ties),
        topk::is_ranking_of(out, EntryRanking {  }, selection.top@),
        selection.need == wanted(k, out.len() as int),
        is_finished(selection, ties, r),
        topk::is_best(items, topk::ScoreRanking {  }, k, whole),
    ensures
        r.entries@ == whole,
{
    let t = selection.threshold;
    let need = selection.need as int;
    let chosen = choose|chosen: Seq<(u32, u32)>| #[trigger]
        is_filled_up(selection, chosen, r) && topk::is_best(ties, TieRanking {  }, need, chosen);
    let top = scores_and_ids(selection.top@);
    let low = at_threshold(t, chosen);
    lemma_top_part(out, selection.top@);
    lemma_tie_part(t, ties, need, chosen);
    let entries = r.entries@;
    assert(entries == top + low);
    assert forall|x: int| 0 <= x < entries.len() implies items.contains(#[trigger] entries[x]) by {
        if x < top.len() {
            assert(scores_and_ids(out).contains(top[x]));
        } else {
            assert(at_threshold(t, ties).contains(low[x - top.len()]));
        }
    }
    assert forall|x: int, y: int| 0 <= x < y < entries.len() implies topk::outranks(
        #[trigger] entries[x],
        #[trigger] entries[y],
    ) by {
        if y < top.len() {
            assert(topk::outranks(top[x], top[y]));
        } else if x >= top.len() {
            assert(topk::outranks(low[x - top.len()], low[y - top.len()]));
        } else {
            assert(scores_and_ids(out).contains(top[x]));
        }
    }
    assert forall|p: (u32, u32)| #[trigger]
        items.contains(p) && !entries.contains(p) implies entries.len() == k && topk::ranks_behind(
        entries,
        p,
    ) by {
        if p.0 > t {
            assert(scores_and_ids(out).contains(p));
            assert(top.contains(p));
            let x = choose|x: int| 0 <= x < top.len() && top[x] == p;
            assert(entries[x] == p);
        } else if p.0 == t {
            assert(at_threshold(t, ties).contains(p));
            if low.contains(p) {
                let x = choose|x: int| 0 <= x < low.len() && low[x] == p;
                assert(entries[top.len() + x] == p);
            }
        }
        assert forall|x: int| 0 <= x < entries.len() implies topk::outranks(
            #[trigger] entries[x],
            p,
        ) by {
            if x < top.len() {
                assert(scores_and_ids(out).contains(top[x]));
                assert(entries[x] == top[x]);
            } else {
                assert(entries[x] == low[x - top.len()]);
                if p.0 == t {
                    assert(topk::ranks_behind(low, p));
                    assert(topk::outranks(low[x - top.len()], p));
                }
            }
        }
    }
    topk::lemma_best_is_top(items, k, whole);
    topk::lemma_top_unique(items, k, entries, whole);
}

/// Ranked entries are the same ones, in strict order.
proof fn lemma_top_part(out: Seq<(u32, u32, u32)>, ranked: Seq<(u32, u32, u32)>)
    requires
        out.len() <= usize::MAX,
        topk::is_ranking_of(out, EntryRanking {  }, ranked),
        scores_and_ids(out).no_duplicates(),
    ensures
        ranked.len() == out.len(),
        forall|x: int|
            0 <= x < ranked.len() ==> scores_and_ids(out).contains(
                #[trigger] scores_and_ids(ranked)[x],
            ),
        forall|p: (u32, u32)|
            scores_and_ids(out).contains(p) ==> #[trigger] scores_and_ids(ranked).contains(p),
        forall|x: int, y: int|
            0 <= x < y < ranked.len() ==> topk::outranks(
                #[trigger] scores_and_ids(ranked)[x],
                #[trigger] scores_and_ids(ranked)[y],
            ),
{
    let ranking = EntryRanking {  };
    let order = choose|order: Seq<usize>| #[trigger]
        sorting::is_stable_order(out, ranking, order) && ranked == sorting::permuted(out, order);
    let all = scores_and_ids(out);
    let mine = scores_and_ids(ranked);
    assert forall|x: int| 0 <= x < ranked.len() implies all.contains(#[trigger] mine[x]) by {
        assert(mine[x] == all[order[x] as int]);
    }
    assert forall|p: (u32, u32)| all.contains(p) implies #[trigger] mine.contains(p) by {
        let i = choose|i: int| 0 <= i < all.len() && all[i] == p;
        sorting::lemma_permutation_covers(order, out.len(), i as usize);
        let z = choose|z: int| 0 <= z < order.len() && order[z] == i as usize;
        assert(mine[z] == p);
    }
    assert forall|x: int, y: int| 0 <= x < y < ranked.len() implies topk::outranks(
        #[trigger] mine[x],
        #[trigger] mine[y],
    ) by {
        assert(sorting::comes_before(out, ranking, order[x], order[y]));
        assert(order[x] != order[y]);
        assert(all[order[x] as int] != all[order[y] as int]);
    }
}

/// The chosen ties are the ones with the lowest ids, in strict order.
proof fn lemma_tie_part(t: u32, ties: Seq<(u32, u32)>, need: int, chosen: Seq<(u32, u32)>)
    requires
        ties.len() <= usize::MAX,
        0 <= need,
        topk::is_best(ties, TieRanking {  }, need, chosen),
        forall|i: int, j: int|
            0 <= i < j < ties.len() ==> (#[trigger] ties[i]).0 != (#[trigger] ties[j]).0,
    ensures
        chosen.len() == topk::lesser(need, ties.len() as int),
        forall|x: int|
            0 <= x < chosen.len() ==> at_threshold(t, ties).contains(
                #[trigger] at_threshold(t, chosen)[x],
            ),
        forall|x: int, y: int|
            0 <= x < y < chosen.len() ==> topk::outranks(
                #[trigger] at_threshold(t, chosen)[x],
                #[trigger] at_threshold(t, chosen)[y],
            ),
        forall|p: (u32, u32)| #[trigger]
            at_threshold(t, ties).contains(p) && !at_threshold(t, chosen).contains(p)
                ==> chosen.len() == need && topk::ranks_behind(at_threshold(t, chosen), p),
{
    let ranking = TieRanking {  };
    let all = choose|all: Seq<(u32, u32)>| #[trigger]
        topk::is_ranking_of(ties, ranking, all) && chosen == all.take(
            topk::lesser(need, ties.len() as int),
        );
    let order = choose|order: Seq<usize>| #[trigger]
        sorting::is_stable_order(ties, ranking, order) && all == sorting::permuted(ties, order);
    let theirs = at_threshold(t, ties);
    let mine = at_threshold(t, chosen);
    assert forall|x: int, y: int| 0 <= x < y < all.len() implies (#[trigger] all[x]).0 < (
    #[trigger] all[y]).0 by {
        assert(sorting::comes_before(ties, ranking, order[x], order[y]));
        assert(order[x] != order[y]);
        let i = order[x] as int;
        let j = order[y] as int;
        if i < j {
            assert(ties[i].0 != ties[j].0);
        } else {
            assert(ties[j].0 != ties[i].0);
        }
    }
    assert forall|x: int| 0 <= x < chosen.len() implies theirs.contains(#[trigger] mine[x]) by {
        assert(mine[x] == theirs[order[x] as int]);
    }
    assert forall|p: (u32, u32)| #[trigger]
        theirs.contains(p) && !mine.contains(p) implies chosen.len() == need && topk::ranks_behind(
        mine,
        p,
    ) by {
        let i = choose|i: int| 0 <= i < theirs.len() && theirs[i] == p;
        sorting::lemma_permutation_covers(order, ties.len(), i as usize);
        let z = choose|z: int| 0 <= z < order.len() && order[z] == i as usize;
        assert(all[z] == ties[i]);
        if z < chosen.len() {
            assert(mine[z] == p);
        }
        assert forall|x: int| 0 <= x < mine.len() implies topk::outranks(#[trigger] mine[x], p) by {
            assert(all[x].0 < all[z].0);
        }
    }
}

} // verus!
