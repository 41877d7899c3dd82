//! The best results, and reading them back from the GPU.

use crate::bytes::Rank;
use crate::score::hits::Hit;
use crate::sorting;
use crate::sorting::Ranking;
use vstd::prelude::*;

verus! {

/// Candidates in rank order (score descending, id ascending), and how many
/// paths matched at all. `meta[i]` is `end_col | exact << 16` for `entries[i]`.
#[derive(Debug, Clone, PartialEq)]
pub struct TopK {
    pub entries: Vec<(u32, u32)>,
    pub meta: Vec<u32>,
    pub matched: u32,
}

/// `(score, id)` pairs: highest score first, lowest id among equals.
pub struct ScoreRanking {}

impl Ranking<(u32, u32)> for ScoreRanking {
    open spec fn admits(&self, a: (u32, u32)) -> bool {
        true
    }

    open spec fn le(&self, a: (u32, u32), b: (u32, u32)) -> bool {
        a.0 > b.0 || (a.0 == b.0 && a.1 <= b.1)
    }

    proof fn total(&self, a: (u32, u32), b: (u32, u32)) {
    }

    proof fn transitive(&self, a: (u32, u32), b: (u32, u32), c: (u32, u32)) {
    }

    fn order(&self, a: &(u32, u32), b: &(u32, u32)) -> Rank {
        if a.0 > b.0 {
            Rank::Before
        } else if a.0 < b.0 {
            Rank::After
        } else if a.1 < b.1 {
            Rank::Before
        } else if a.1 > b.1 {
            Rank::After
        } else {
            Rank::Level
        }
    }
}

/// `(score, id, meta)`: highest score first, lowest id among equals.
pub struct EntryRanking {}

impl Ranking<(u32, u32, u32)> for EntryRanking {
    open spec fn admits(&self, a: (u32, u32, u32)) -> bool {
        true
    }

    open spec fn le(&self, a: (u32, u32, u32), b: (u32, u32, u32)) -> bool {
        a.0 > b.0 || (a.0 == b.0 && a.1 <= b.1)
    }

    proof fn total(&self, a: (u32, u32, u32), b: (u32, u32, u32)) {
    }

    proof fn transitive(&self, a: (u32, u32, u32), b: (u32, u32, u32), c: (u32, u32, u32)) {
    }

    fn order(&self, a: &(u32, u32, u32), b: &(u32, u32, u32)) -> Rank {
        if a.0 > b.0 {
            Rank::Before
        } else if a.0 < b.0 {
            Rank::After
        } else if a.1 < b.1 {
            Rank::Before
        } else if a.1 > b.1 {
            Rank::After
        } else {
            Rank::Level
        }
    }
}

/// `(id, meta)`: lowest first.
pub struct TieRanking {}

impl Ranking<(u32, u32)> for TieRanking {
    open spec fn admits(&self, a: (u32, u32)) -> bool {
        true
    }

    open spec fn le(&self, a: (u32, u32), b: (u32, u32)) -> bool {
        a.0 < b.0 || (a.0 == b.0 && a.1 <= b.1)
    }

    proof fn total(&self, a: (u32, u32), b: (u32, u32)) {
    }

    proof fn transitive(&self, a: (u32, u32), b: (u32, u32), c: (u32, u32)) {
    }

    fn order(&self, a: &(u32, u32), b: &(u32, u32)) -> Rank {
        if a.0 < b.0 {
            Rank::Before
        } else if a.0 > b.0 {
            Rank::After
        } else if a.1 < b.1 {
            Rank::Before
        } else if a.1 > b.1 {
            Rank::After
        } else {
            Rank::Level
        }
    }
}

pub open spec fn lesser(a: int, b: int) -> int {
    if a < b {
        a
    } else {
        b
    }
}

/// `out` holds the items in rank order.
pub open spec fn is_ranking_of<T, R: Ranking<T>>(items: Seq<T>, ranking: R, out: Seq<T>) -> bool {
    exists|order: Seq<usize>| #[trigger]
        sorting::is_stable_order(items, ranking, order) && out == sorting::permuted(items, order)
}

/// `out` holds the `k` first items in rank order.
pub open spec fn is_best<T, R: Ranking<T>>(items: Seq<T>, ranking: R, k: int, out: Seq<T>) -> bool {
    exists|all: Seq<T>| #[trigger]
        is_ranking_of(items, ranking, all) && out == all.take(lesser(k, items.len() as int))
}

/// All items in rank order.
pub(crate) fn rank<T: Copy, R: Ranking<T>>(items: &Vec<T>, ranking: &R) -> (out: Vec<T>)
    requires
        forall|x: int| 0 <= x < items@.len() ==> ranking.admits(#[trigger] items@[x]),
    ensures
        is_ranking_of(items@, *ranking, out@),
        out@.len() == items@.len(),
{
    let order = sorting::stable_order(items.as_slice(), ranking);
    sorting::permute(items.as_slice(), &order)
}

/// The `k` first items in rank order.
pub(crate) fn best<T: Copy, R: Ranking<T>>(items: &Vec<T>, ranking: &R, k: usize) -> (out: Vec<T>)
    requires
        forall|x: int| 0 <= x < items@.len() ==> ranking.admits(#[trigger] items@[x]),
    ensures
        is_best(items@, *ranking, k as int, out@),
        out@.len() == lesser(k as int, items@.len() as int),
{
    let mut out = rank(items, ranking);
    let ghost all = out@;
    if out.len() > k {
        out.truncate(k);
    }
    assert(out@ =~= all.take(lesser(k as int, items@.len() as int)));
    out
}

/// The ids with a score, among the first `n`.
pub open spec fn scored_ids(scores: Seq<u32>, n: int) -> Seq<(u32, u32)>
    decreases n,
{
    if n <= 0 {
        Seq::empty()
    } else if scores[n - 1] > 0 {
        scored_ids(scores, n - 1).push((scores[n - 1], (n - 1) as u32))
    } else {
        scored_ids(scores, n - 1)
    }
}

pub proof fn lemma_scored_ids(scores: Seq<u32>, n: int)
    requires
        0 <= n <= scores.len() <= u32::MAX,
    ensures
        scored_ids(scores, n).len() <= n,
        forall|x: int|
            0 <= x < scored_ids(scores, n).len() ==> (#[trigger] scored_ids(scores, n)[x]).1 < n
                && scored_ids(scores, n)[x].0 == scores[scored_ids(scores, n)[x].1 as int]
                && scored_ids(scores, n)[x].0 > 0,
        forall|x: int, y: int|
            0 <= x < y < scored_ids(scores, n).len() ==> (#[trigger] scored_ids(scores, n)[x]).1 < (
            #[trigger] scored_ids(scores, n)[y]).1,
    decreases n,
{
    if n > 0 {
        lemma_scored_ids(scores, n - 1);
    }
}

pub(crate) fn collect_scored(scores: &[u32]) -> (r: Vec<(u32, u32)>)
    requires
        scores@.len() <= u32::MAX,
    ensures
        r@ == scored_ids(scores@, scores@.len() as int),
{
    let mut out: Vec<(u32, u32)> = Vec::new();
    let mut i: usize = 0;
    while i < scores.len()
        invariant
            i <= scores@.len() <= u32::MAX,
            out@ == scored_ids(scores@, i as int),
        decreases scores@.len() - i,
    {
        if scores[i] > 0 {
            out.push((scores[i], i as u32));
        }
        i += 1;
    }
    out
}

/// Every entry of the best stands among the items.
pub proof fn lemma_best_from<T, R: Ranking<T>>(items: Seq<T>, ranking: R, k: int, out: Seq<T>)
    requires
        is_best(items, ranking, k, out),
        0 <= k,
    ensures
        forall|x: int| 0 <= x < out.len() ==> items.contains(#[trigger] out[x]),
{
    let all = choose|all: Seq<T>| #[trigger]
        is_ranking_of(items, ranking, all) && out == all.take(lesser(k, items.len() as int));
    let order = choose|order: Seq<usize>| #[trigger]
        sorting::is_stable_order(items, ranking, order) && all == sorting::permuted(items, order);
    assert forall|x: int| 0 <= x < out.len() implies items.contains(#[trigger] out[x]) by {
        assert(out[x] == items[order[x] as int]);
    }
}

/// How many ids have a score.
pub fn count_scored(scores: &[u32]) -> (n: u32)
    requires
        scores@.len() <= u32::MAX,
    ensures
        n == scored_ids(scores@, scores@.len() as int).len(),
{
    let mut n: u32 = 0;
    let mut i: usize = 0;
    while i < scores.len()
        invariant
            i <= scores@.len() <= u32::MAX,
            n == scored_ids(scores@, i as int).len(),
            n <= i,
        decreases scores@.len() - i,
    {
        if scores[i] > 0 {
            n += 1;
        }
        i += 1;
    }
    n
}

/// The `k` best ids with a score, best first; ties go to the lower id.
pub fn top_k_scores(scores: &[u32], k: usize) -> (r: Vec<(u32, u32)>)
    requires
        scores@.len() <= u32::MAX,
        k > 0 || scored_ids(scores@, scores@.len() as int).len() == 0,
    ensures
        is_best(
            scored_ids(scores@, scores@.len() as int),
            ScoreRanking {  },
            k as int,
            r@,
        ),
{
    let scored = collect_scored(scores);
    best(&scored, &ScoreRanking {  }, k)
}

/// Hits as `(score, id)` pairs, ids counted from `offset`.
pub open spec fn hit_pairs(hits: Seq<Hit>, offset: int) -> Seq<(u32, u32)> {
    Seq::new(hits.len(), |i: int| (hits[i].score as u32, (hits[i].index + offset) as u32))
}

/// The `k` best hits, best first; ids are counted from `offset`.
pub fn top_k_matches(hits: &Vec<Hit>, offset: u32, k: usize) -> (r: Vec<(u32, u32)>)
    requires
        k > 0 || hits@.len() == 0,
        forall|i: int| 0 <= i < hits@.len() ==> (#[trigger] hits@[i]).index + offset <= u32::MAX,
    ensures
        is_best(hit_pairs(hits@, offset as int), ScoreRanking {  }, k as int, r@),
{
    let mut pairs: Vec<(u32, u32)> = Vec::new();
    let mut i: usize = 0;
    while i < hits.len()
        invariant
            i <= hits@.len(),
            forall|i: int|
                0 <= i < hits@.len() ==> (#[trigger] hits@[i]).index + offset <= u32::MAX,
            pairs@.len() == i,
            forall|j: int| 0 <= j < i ==> pairs@[j] == hit_pairs(hits@, offset as int)[j],
        decreases hits@.len() - i,
    {
        assert(hits@[i as int].index + offset <= u32::MAX);
        pairs.push((hits[i].score as u32, hits[i].index + offset));
        i += 1;
    }
    assert(pairs@ =~= hit_pairs(hits@, offset as int));
    best(&pairs, &ScoreRanking {  }, k)
}

/// The `k` best of two lists.
pub fn merge_top(a: Vec<(u32, u32)>, b: Vec<(u32, u32)>, k: usize) -> (r: Vec<(u32, u32)>)
    ensures
        is_best(a@ + b@, ScoreRanking {  }, k as int, r@),
{
    let ghost both = a@ + b@;
    let mut all = a;
    let mut rest = b;
    all.append(&mut rest);
    assert(all@ =~= both);
    best(&all, &ScoreRanking {  }, k)
}

/// `a` ranks strictly before `b`.
pub open spec fn outranks(a: (u32, u32), b: (u32, u32)) -> bool {
    a.0 > b.0 || (a.0 == b.0 && a.1 < b.1)
}

/// `out` are the `k` best of `items`: in strict order, and what is left out
/// ranks behind all of them.
pub open spec fn is_top(items: Seq<(u32, u32)>, k: int, out: Seq<(u32, u32)>) -> bool {
    &&& out.len() <= k
    &&& forall|x: int| 0 <= x < out.len() ==> items.contains(#[trigger] out[x])
    &&& forall|x: int, y: int|
        0 <= x < y < out.len() ==> outranks(#[trigger] out[x], #[trigger] out[y])
    &&& forall|p: (u32, u32)| #[trigger]
        items.contains(p) && !out.contains(p) ==> out.len() == k && ranks_behind(out, p)
}

/// `p` ranks behind all of `out`.
pub open spec fn ranks_behind(out: Seq<(u32, u32)>, p: (u32, u32)) -> bool {
    forall|x: int| 0 <= x < out.len() ==> outranks(#[trigger] out[x], p)
}

pub proof fn lemma_best_is_top(items: Seq<(u32, u32)>, k: int, out: Seq<(u32, u32)>)
    requires
        items.no_duplicates(),
        items.len() <= usize::MAX,
        0 <= k,
        is_best(items, ScoreRanking {  }, k, out),
    ensures
        is_top(items, k, out),
{
    let ranking = ScoreRanking {  };
    let all = choose|all: Seq<(u32, u32)>| #[trigger]
        is_ranking_of(items, ranking, all) && out == all.take(lesser(k, items.len() as int));
    let order = choose|order: Seq<usize>| #[trigger]
        sorting::is_stable_order(items, ranking, order) && all == sorting::permuted(items, order);
    assert forall|x: int, y: int| 0 <= x < y < all.len() implies outranks(
        #[trigger] all[x],
        #[trigger] all[y],
    ) by {
        assert(sorting::comes_before(items, ranking, order[x], order[y]));
        assert(order[x] != order[y]);
        assert(items[order[x] as int] != items[order[y] as int]);
    }
    assert forall|p: (u32, u32)| #[trigger]
        items.contains(p) && !out.contains(p) implies out.len() == k && ranks_behind(out, p) by {
        let i = choose|i: int| 0 <= i < items.len() && items[i] == p;
        sorting::lemma_permutation_covers(order, items.len(), i as usize);
        let z = choose|z: int| 0 <= z < order.len() && order[z] == i as usize;
        assert(all[z] == p);
        if z < out.len() {
            assert(out[z] == p);
        }
        assert forall|x: int| 0 <= x < out.len() implies outranks(#[trigger] out[x], p) by {
            assert(outranks(all[x], all[z]));
        }
    }
    assert forall|x: int| 0 <= x < out.len() implies items.contains(#[trigger] out[x]) by {
        assert(all[x] == items[order[x] as int]);
    }
}

pub proof fn lemma_top_unique(items: Seq<(u32, u32)>, k: int, a: Seq<(u32, u32)>, b: Seq<(u32, u32)>)
    requires
        is_top(items, k, a),
        is_top(items, k, b),
    ensures
        a == b,
{
    lemma_top_agree(items, k, a, b, lesser(a.len() as int, b.len() as int));
    lemma_top_not_longer(items, k, a, b);
    lemma_top_not_longer(items, k, b, a);
    assert(a =~= b);
}

proof fn lemma_top_not_longer(
    items: Seq<(u32, u32)>,
    k: int,
    a: Seq<(u32, u32)>,
    b: Seq<(u32, u32)>,
)
    requires
        is_top(items, k, a),
        is_top(items, k, b),
        forall|i: int| 0 <= i < a.len() && i < b.len() ==> a[i] == b[i],
    ensures
        b.len() <= a.len(),
{
    if a.len() < b.len() {
        let p = b[a.len() as int];
        assert(items.contains(p));
        if a.contains(p) {
            let x = choose|x: int| 0 <= x < a.len() && a[x] == p;
            assert(outranks(b[x], b[a.len() as int]));
        }
    }
}

proof fn lemma_top_agree(
    items: Seq<(u32, u32)>,
    k: int,
    a: Seq<(u32, u32)>,
    b: Seq<(u32, u32)>,
    n: int,
)
    requires
        is_top(items, k, a),
        is_top(items, k, b),
        0 <= n <= a.len(),
        n <= b.len(),
    ensures
        forall|i: int| 0 <= i < n ==> a[i] == b[i],
    decreases n,
{
    if n > 0 {
        lemma_top_agree(items, k, a, b, n - 1);
        let i = n - 1;
        if a[i] != b[i] {
            lemma_later_is_behind(items, k, a, b, i);
            lemma_later_is_behind(items, k, b, a, i);
        }
    }
}

/// What stands elsewhere, or nowhere, in `b` ranks behind `b[i]`.
proof fn lemma_later_is_behind(
    items: Seq<(u32, u32)>,
    k: int,
    a: Seq<(u32, u32)>,
    b: Seq<(u32, u32)>,
    i: int,
)
    requires
        is_top(items, k, a),
        is_top(items, k, b),
        0 <= i < a.len(),
        i < b.len(),
        a[i] != b[i],
        forall|j: int| 0 <= j < i ==> a[j] == b[j],
    ensures
        outranks(b[i], a[i]),
{
    assert(items.contains(a[i]));
    if b.contains(a[i]) {
        let z = choose|z: int| 0 <= z < b.len() && b[z] == a[i];
        if z < i {
            assert(outranks(a[z], a[i]));
        } else {
            assert(outranks(b[i], b[z]));
        }
    }
}

/// The best of two parts, taken from the best of each, are the best of the
/// whole: splitting a search changes nothing.
pub proof fn law_best_of_parts(
    a: Seq<(u32, u32)>,
    b: Seq<(u32, u32)>,
    k: int,
    best_a: Seq<(u32, u32)>,
    best_b: Seq<(u32, u32)>,
    merged: Seq<(u32, u32)>,
    whole: Seq<(u32, u32)>,
)
    requires
        (a + b).no_duplicates(),
        (a + b).len() <= usize::MAX,
        0 <= k,
        is_best(a, ScoreRanking {  }, k, best_a),
        is_best(b, ScoreRanking {  }, k, best_b),
        is_best(best_a + best_b, ScoreRanking {  }, k, merged),
        is_best(a + b, ScoreRanking {  }, k, whole),
    ensures
        merged == whole,
{
    assert(a.no_duplicates()) by {
        assert forall|i: int, j: int| 0 <= i < a.len() && 0 <= j < a.len() && i != j implies a[i]
            != a[j] by {
            assert((a + b)[i] == a[i] && (a + b)[j] == a[j]);
        }
    }
    assert(b.no_duplicates()) by {
        assert forall|i: int, j: int| 0 <= i < b.len() && 0 <= j < b.len() && i != j implies b[i]
            != b[j] by {
            assert((a + b)[a.len() + i] == b[i] && (a + b)[a.len() + j] == b[j]);
        }
    }
    lemma_best_is_top(a, k, best_a);
    lemma_best_is_top(b, k, best_b);
    lemma_best_is_top(a + b, k, whole);
    let both = best_a + best_b;
    lemma_parts_distinct(a, b, k, best_a, best_b);
    lemma_best_is_top(both, k, merged);
    assert forall|x: int| 0 <= x < merged.len() implies (a + b).contains(#[trigger] merged[x]) by {
        lemma_either(best_a, best_b, merged[x]);
        lemma_found_in_sum(a, b, best_a, best_b, merged[x]);
    }
    assert forall|p: (u32, u32)| #[trigger]
        (a + b).contains(p) && !merged.contains(p) implies merged.len() == k && ranks_behind(
        merged,
        p,
    ) by {
        lemma_either(a, b, p);
        assert forall|x: int| 0 <= x < best_a.len() implies both.contains(#[trigger] best_a[x]) by {
            assert(both[x] == best_a[x]);
        }
        assert forall|x: int| 0 <= x < best_b.len() implies both.contains(#[trigger] best_b[x]) by {
            assert(both[best_a.len() + x] == best_b[x]);
        }
        if a.contains(p) {
            lemma_left_out(a, k, best_a, both, merged, p);
        } else {
            lemma_left_out(b, k, best_b, both, merged, p);
        }
    }
    lemma_top_unique(a + b, k, merged, whole);
}

proof fn lemma_either(a: Seq<(u32, u32)>, b: Seq<(u32, u32)>, p: (u32, u32))
    ensures
        (a + b).contains(p) <==> a.contains(p) || b.contains(p),
{
    if (a + b).contains(p) {
        let i = choose|i: int| 0 <= i < (a + b).len() && (a + b)[i] == p;
        if i < a.len() {
            assert(a[i] == p);
        } else {
            assert(b[i - a.len()] == p);
        }
    }
    if a.contains(p) {
        let i = choose|i: int| 0 <= i < a.len() && a[i] == p;
        assert((a + b)[i] == p);
    }
    if b.contains(p) {
        let i = choose|i: int| 0 <= i < b.len() && b[i] == p;
        assert((a + b)[a.len() + i] == p);
    }
}

proof fn lemma_found_in_sum(
    a: Seq<(u32, u32)>,
    b: Seq<(u32, u32)>,
    best_a: Seq<(u32, u32)>,
    best_b: Seq<(u32, u32)>,
    p: (u32, u32),
)
    requires
        forall|x: int| 0 <= x < best_a.len() ==> a.contains(#[trigger] best_a[x]),
        forall|x: int| 0 <= x < best_b.len() ==> b.contains(#[trigger] best_b[x]),
        best_a.contains(p) || best_b.contains(p),
    ensures
        (a + b).contains(p),
{
    if best_a.contains(p) {
        let x = choose|x: int| 0 <= x < best_a.len() && best_a[x] == p;
        assert(a.contains(best_a[x]));
    } else {
        let x = choose|x: int| 0 <= x < best_b.len() && best_b[x] == p;
        assert(b.contains(best_b[x]));
    }
    lemma_either(a, b, p);
}

proof fn lemma_parts_distinct(
    a: Seq<(u32, u32)>,
    b: Seq<(u32, u32)>,
    k: int,
    best_a: Seq<(u32, u32)>,
    best_b: Seq<(u32, u32)>,
)
    requires
        (a + b).no_duplicates(),
        (a + b).len() <= usize::MAX,
        is_top(a, k, best_a),
        is_top(b, k, best_b),
    ensures
        (best_a + best_b).no_duplicates(),
        (best_a + best_b).len() <= usize::MAX,
        best_a.no_duplicates(),
        best_b.no_duplicates(),
{
    let both = best_a + best_b;
    let na = best_a.len() as int;
    assert forall|i: int, j: int| 0 <= i < j < both.len() implies both[i] != both[j] by {
        if j < na {
            assert(both[i] == best_a[i] && both[j] == best_a[j]);
            assert(outranks(best_a[i], best_a[j]));
        } else if i >= na {
            assert(both[i] == best_b[i - na] && both[j] == best_b[j - na]);
            assert(outranks(best_b[i - na], best_b[j - na]));
        } else {
            assert(both[i] == best_a[i] && both[j] == best_b[j - na]);
            assert(a.contains(best_a[i]));
            assert(b.contains(best_b[j - na]));
            let x = choose|x: int| 0 <= x < a.len() && a[x] == best_a[i];
            let y = choose|y: int| 0 <= y < b.len() && b[y] == best_b[j - na];
            assert((a + b)[x] == a[x] && (a + b)[a.len() + y] == b[y]);
        }
    }
    lemma_subset_len(a, best_a);
    lemma_subset_len(b, best_b);
}

/// A list without repetition is no longer than one that holds all of it.
proof fn lemma_subset_len(items: Seq<(u32, u32)>, part: Seq<(u32, u32)>)
    requires
        part.no_duplicates(),
        forall|x: int| 0 <= x < part.len() ==> items.contains(#[trigger] part[x]),
    ensures
        part.len() <= items.len(),
{
    part.unique_seq_to_set();
    items.lemma_cardinality_of_set();
    assert(part.to_set().subset_of(items.to_set())) by {
        assert forall|p: (u32, u32)| part.to_set().contains(p) implies items.to_set().contains(
            p,
        ) by {
            let x = choose|x: int| 0 <= x < part.len() && part[x] == p;
            assert(items.contains(part[x]));
        }
    }
    vstd::set_lib::lemma_len_subset(part.to_set(), items.to_set());
}

/// What a part leaves out, and what the merge leaves out, ranks behind the
/// merge.
proof fn lemma_left_out(
    items: Seq<(u32, u32)>,
    k: int,
    chosen: Seq<(u32, u32)>,
    both: Seq<(u32, u32)>,
    merged: Seq<(u32, u32)>,
    p: (u32, u32),
)
    requires
        is_top(items, k, chosen),
        is_top(both, k, merged),
        chosen.no_duplicates(),
        forall|x: int| 0 <= x < chosen.len() ==> both.contains(#[trigger] chosen[x]),
        items.contains(p),
        !merged.contains(p),
    ensures
        merged.len() == k,
        ranks_behind(merged, p),
{
    if chosen.contains(p) {
        let x = choose|x: int| 0 <= x < chosen.len() && chosen[x] == p;
        assert(both.contains(chosen[x]));
    } else if exists|x: int| 0 <= x < chosen.len() && !merged.contains(#[trigger] chosen[x]) {
        let x = choose|x: int| 0 <= x < chosen.len() && !merged.contains(#[trigger] chosen[x]);
        assert(both.contains(chosen[x]));
        assert(outranks(chosen[x], p));
        assert forall|y: int| 0 <= y < merged.len() implies outranks(#[trigger] merged[y], p) by {
            assert(outranks(merged[y], chosen[x]));
        }
    } else {
        assert forall|x: int| 0 <= x < chosen.len() implies merged.contains(#[trigger] chosen[x]) by {}
        lemma_subset_len(merged, chosen);
        assert(merged.len() == k);
        assert forall|y: int| 0 <= y < merged.len() implies outranks(#[trigger] merged[y], p) by {
            if !chosen.contains(merged[y]) {
                let more = chosen.push(merged[y]);
                assert(more.no_duplicates()) by {
                    assert forall|i: int, j: int|
                        0 <= i < more.len() && 0 <= j < more.len() && i != j implies more[i]
                        != more[j] by {
                        if i == chosen.len() {
                            assert(chosen.contains(chosen[j]));
                        } else if j == chosen.len() {
                            assert(chosen.contains(chosen[i]));
                        }
                    }
                }
                assert forall|x: int| 0 <= x < more.len() implies merged.contains(
                    #[trigger] more[x],
                ) by {
                    if x < chosen.len() {
                        assert(more[x] == chosen[x]);
                    }
                }
                lemma_subset_len(merged, more);
            }
            let z = choose|z: int| 0 <= z < chosen.len() && chosen[z] == merged[y];
            assert(outranks(chosen[z], p));
        }
    }
}

} // verus!
