//! What measuring takes.

use crate::bytes::Rank;
use crate::gpu::text;
use crate::gpu::text::{push_named, push_text};
use crate::gpu::topk;
use crate::gpu::topk::ScoreRanking;
use crate::sorting::Ranking;
use vstd::prelude::*;

verus! {

/// `ids` are those of the best results.
pub open spec fn ids_of(best: Seq<(u32, u32)>) -> Seq<u32> {
    Seq::new(best.len(), |i: int| best[i].1)
}

/// `ids` name the `k` best results, best first.
pub open spec fn are_best_ids(scores: Seq<u32>, k: int, ids: Seq<u32>) -> bool {
    exists|best: Seq<(u32, u32)>| #[trigger]
        topk::is_best(
            topk::scored_ids(scores, scores.len() as int),
            ScoreRanking {  },
            k,
            best,
        ) && ids == ids_of(best)
}

/// The ids with the best scores, best first; ties go to the lower id.
pub fn top_k(scores: &[u32], k: usize) -> (ids: Vec<u32>)
    requires
        scores@.len() <= u32::MAX,
    ensures
        are_best_ids(scores@, k as int, ids@),
{
    let scored = topk::collect_scored(scores);
    let best = topk::best(&scored, &ScoreRanking {  }, k);
    let mut ids: Vec<u32> = Vec::new();
    let mut i: usize = 0;
    while i < best.len()
        invariant
            i <= best@.len(),
            ids@ == ids_of(best@).take(i as int),
        decreases best@.len() - i,
    {
        ids.push(best[i].1);
        assert(ids@ =~= ids_of(best@).take(i + 1));
        i += 1;
    }
    assert(ids@ =~= ids_of(best@));
    ids
}

/// Path `i` of a list that repeats `base`: copies stand in directories of their
/// own.
pub open spec fn scaled_path(base: Seq<String>, i: int) -> Seq<char> {
    let path = base[i % base.len() as int]@;
    let copy = i / base.len() as int;
    if copy == 0 {
        path
    } else {
        "pkg"@ + text::decimal(copy as nat) + ("/"@ + path)
    }
}

/// `target` paths made from those in `base`; `base` itself where it has enough,
/// or where no number is given.
pub fn scale(base: &[String], target: usize) -> (out: Vec<String>)
    requires
        target > 0 ==> base@.len() > 0,
    ensures
        out@.len() == if target <= base@.len() {
            base@.len() as int
        } else {
            target as int
        },
        forall|i: int| 0 <= i < out@.len() ==> (#[trigger] out@[i])@ == scaled_path(base@, i),
{
    let n: usize = if target <= base.len() {
        base.len()
    } else {
        target
    };
    let mut out: Vec<String> = Vec::new();
    let mut at: usize = 0;
    let mut copy: usize = 0;
    let mut i: usize = 0;
    proof {
        if base@.len() > 0 {
            lemma_place(0, base@.len() as int, 0, 0);
        }
    }
    while i < n
        invariant
            i <= n,
            n > 0 ==> base@.len() > 0,
            base@.len() > 0 ==> at < base@.len() && i == copy * base@.len() + at,
            out@.len() == i,
            forall|k: int| 0 <= k < i ==> (#[trigger] out@[k])@ == scaled_path(base@, k),
        decreases n - i,
    {
        proof {
            lemma_place(i as int, base@.len() as int, copy as int, at as int);
        }
        let mut path: String = String::new();
        if copy > 0 {
            push_named(&mut path, "pkg", copy);
            push_text(&mut path, "/");
        }
        push_text(&mut path, base[at].as_str());
        assert(path@ =~= scaled_path(base@, i as int));
        out.push(path);
        proof {
            let len = base@.len() as int;
            assert((copy + 1) * len == copy * len + len) by (nonlinear_arith);
            assert(copy <= copy * len) by (nonlinear_arith)
                requires
                    len >= 1,
                    copy >= 0,
            ;
        }
        if at + 1 == base.len() {
            at = 0;
            copy += 1;
        } else {
            at += 1;
        }
        i += 1;
    }
    out
}

proof fn lemma_place(i: int, len: int, copy: int, at: int)
    requires
        0 <= at < len,
        i == copy * len + at,
    ensures
        i / len == copy,
        i % len == at,
{
    assert(i / len == copy && i % len == at) by (nonlinear_arith)
        requires
            0 <= at < len,
            i == copy * len + at,
    ;
}

/// Shorter times first.
pub struct TimeRanking {}

impl Ranking<u64> for TimeRanking {
    open spec fn admits(&self, a: u64) -> bool {
        true
    }

    open spec fn le(&self, a: u64, b: u64) -> bool {
        a <= b
    }

    proof fn total(&self, a: u64, b: u64) {
    }

    proof fn transitive(&self, a: u64, b: u64, c: u64) {
    }

    fn order(&self, a: &u64, b: &u64) -> Rank {
        if *a < *b {
            Rank::Before
        } else if *a > *b {
            Rank::After
        } else {
            Rank::Level
        }
    }
}

/// Sorts measured times and gives the one in the middle; the later one of two.
pub fn median(times: &mut Vec<u64>) -> (r: u64)
    requires
        old(times)@.len() > 0,
    ensures
        topk::is_ranking_of(old(times)@, TimeRanking {  }, final(times)@),
        final(times)@.len() == old(times)@.len(),
        r == final(times)@[old(times)@.len() as int / 2],
        forall|i: int, j: int|
            0 <= i < j < final(times)@.len() ==> (#[trigger] final(times)@[i]) <= (
            #[trigger] final(times)@[j]),
{
    let sorted = topk::rank(times, &TimeRanking {  });
    proof {
        let order = choose|order: Seq<usize>| #[trigger]
            crate::sorting::is_stable_order(times@, TimeRanking {  }, order) && sorted@
                == crate::sorting::permuted(times@, order);
        crate::sorting::lemma_stable_order_ranks(times@, TimeRanking {  }, order);
        assert forall|i: int, j: int| 0 <= i < j < sorted@.len() implies (#[trigger] sorted@[i])
            <= (#[trigger] sorted@[j]) by {
            assert(TimeRanking {  }.le(sorted@[i], sorted@[j]));
        }
    }
    *times = sorted;
    times[times.len() / 2]
}

} // verus!
