//! Scoring one byte of a path after the other, with affine gaps.

use crate::gpu::matcher::Scoring;
use crate::prototype::weights;
use crate::prototype::weights::{bonus, delimits, max, score_cell, Weights};
use crate::prototype::window;
use crate::prototype::window::{flip_case, prefilter_window};
use vstd::prelude::*;

verus! {

/// Below any score that a gap can leave.
pub const NEG: i32 = -1_000_000;

/// A needle being looked for in a path from `start` on.
pub struct Problem {
    pub w: Weights,
    pub needle: Seq<u8>,
    pub hay: Seq<u8>,
    pub start: int,
}

pub open spec fn bonus_at(x: Problem, p: int) -> int {
    weights::bonus_of(
        x.w,
        x.hay[p],
        p > 0 && window::is_lower(x.hay[p - 1]),
        p > 0 && weights::is_delimiter(x.hay[p - 1]),
        p == 0,
    )
}

pub open spec fn matches_at(x: Problem, p: int, i: int) -> bool {
    i > 0 && window::alike(x.hay[p], x.needle[i - 1])
}

/// The cell for the first `i` needle bytes and path byte `p`, before gaps along
/// the path.
pub open spec fn bare_cell(x: Problem, p: int, i: int) -> int
    decreases p - x.start + 1, i, 0int,
{
    if p < x.start || i <= 0 {
        0
    } else {
        weights::cell(
            x.w,
            x.hay[p],
            x.needle[i - 1],
            bonus_at(x, p),
            full_cell(x, p - 1, i - 1),
            full_cell(x, p, i - 1),
            matches_at(x, p, i - 1),
        )
    }
}

/// What the best gap that ends in front of `p` is worth, as if it had started
/// at the window's start.
pub open spec fn open_gap(x: Problem, p: int, i: int) -> int
    decreases p - x.start + 1, i, 1int,
{
    if p <= x.start || i <= 0 {
        NEG as int
    } else {
        weights::larger(
            open_gap(x, p - 1, i),
            bare_cell(x, p - 1, i) - (if matches_at(x, p - 1, i) {
                x.w.gap_open as int
            } else {
                0
            }) + (p - 1 - x.start) * x.w.gap_extend,
        )
    }
}

/// The cell for the first `i` needle bytes and path byte `p`.
pub open spec fn full_cell(x: Problem, p: int, i: int) -> int
    decreases p - x.start + 1, i, 2int,
{
    if p < x.start || i <= 0 {
        0
    } else {
        weights::larger(
            bare_cell(x, p, i),
            weights::larger(open_gap(x, p, i) - (p - x.start) * x.w.gap_extend, 0),
        )
    }
}

/// The best score at which the whole needle ends in front of `end`.
pub open spec fn best_before(x: Problem, end: int) -> int
    decreases end - x.start,
{
    if end <= x.start {
        0
    } else {
        weights::larger(best_before(x, end - 1), full_cell(x, end - 1, x.needle.len() as int))
    }
}

/// Bytes of a needle that are scored.
pub open spec fn cut(needle: Seq<u8>) -> Seq<u8> {
    if needle.len() > 64 {
        needle.take(64)
    } else {
        needle
    }
}

/// A score with what a path that is the needle gains.
pub open spec fn with_exact(best: int, whole: bool, w: Weights) -> int {
    if whole && best > 0 {
        best + w.exact
    } else {
        best
    }
}

/// The score over a window.
pub open spec fn window_score(w: Weights, needle: Seq<u8>, hay: Seq<u8>, start: int, end: int) -> int {
    with_exact(
        best_before(Problem { w, needle, hay, start }, end),
        hay.len() == needle.len(),
        w,
    )
}

/// `score` is what the needle scores in the path: nothing where its bytes do
/// not occur in order.
pub open spec fn is_score(w: Weights, needle: Seq<u8>, hay: Seq<u8>, score: int) -> bool {
    if needle.len() == 0 || !window::occurs(needle, hay) {
        score == 0
    } else {
        exists|start: int, end: int| #[trigger]
            window::is_window(needle, hay, start, end) && score == window_score(
                w,
                needle,
                hay,
                start,
                end,
            )
    }
}

proof fn lemma_bonus_bound(x: Problem, p: int)
    requires
        x.w.wf(),
    ensures
        0 <= bonus_at(x, p) <= 4 * 65535,
{
}

/// No cell is worth more than its needle bytes can bring.
proof fn lemma_cell_bound(x: Problem, p: int, i: int)
    requires
        x.w.wf(),
        0 <= i <= x.needle.len(),
    ensures
        0 <= bare_cell(x, p, i) <= i * weights::step_limit(),
        0 <= full_cell(x, p, i) <= i * weights::step_limit(),
        p >= x.start ==> open_gap(x, p, i) <= i * weights::step_limit() + (p - x.start)
            * x.w.gap_extend,
    decreases p - x.start + 1, i,
{
    let limit = weights::step_limit();
    assert(0 <= i * limit) by (nonlinear_arith)
        requires
            0 <= i,
            limit == 327675,
    ;
    if p >= x.start && i > 0 {
        lemma_cell_bound(x, p - 1, i - 1);
        lemma_cell_bound(x, p, i - 1);
        lemma_bonus_bound(x, p);
        assert((i - 1) * limit + limit == i * limit) by (nonlinear_arith);
        if p > x.start {
            lemma_cell_bound(x, p - 1, i);
            let d = p - x.start;
            let e = x.w.gap_extend as int;
            assert((d - 1) * e <= d * e) by (nonlinear_arith)
                requires
                    0 <= e,
            ;
            assert(0 <= d * e) by (nonlinear_arith)
                requires
                    0 <= d,
                    0 <= e,
            ;
        }
    } else if p > x.start {
        let d = p - x.start;
        let e = x.w.gap_extend as int;
        assert(0 <= d * e) by (nonlinear_arith)
            requires
                0 <= d,
                0 <= e,
        ;
    }
}

proof fn lemma_best_bound(x: Problem, end: int)
    requires
        x.w.wf(),
    ensures
        0 <= best_before(x, end) <= x.needle.len() * weights::step_limit(),
    decreases end - x.start,
{
    assert(0 <= x.needle.len() * weights::step_limit()) by (nonlinear_arith)
        requires
            0 <= x.needle.len(),
            weights::step_limit() == 327675,
    ;
    if end > x.start {
        lemma_best_bound(x, end - 1);
        lemma_cell_bound(x, end - 1, x.needle.len() as int);
    }
}

/// What a cell is worth at the end of a gap from path byte `q` to `p`: opening
/// it costs something behind a match only, each byte costs the same.
pub open spec fn after_gap(x: Problem, q: int, p: int, i: int) -> int {
    bare_cell(x, q, i) - (if matches_at(x, q, i) {
        x.w.gap_open as int
    } else {
        0
    }) - (p - q) * x.w.gap_extend
}

/// The best gap is at least as good as each of them, and is one of them.
proof fn lemma_open_gap(x: Problem, p: int, i: int)
    requires
        i > 0,
        p > x.start,
    ensures
        forall|q: int|
            x.start <= q < p ==> open_gap(x, p, i) - (p - x.start) * x.w.gap_extend
                >= #[trigger] after_gap(x, q, p, i),
        open_gap(x, p, i) == NEG || exists|q: int|
            x.start <= q < p && open_gap(x, p, i) - (p - x.start) * x.w.gap_extend
                == #[trigger] after_gap(x, q, p, i),
    decreases p - x.start,
{
    let e = x.w.gap_extend as int;
    let d = p - x.start;
    let last = p - 1;
    assert(d * e == (d - 1) * e + e) by (nonlinear_arith);
    assert((p - last) * e == e) by (nonlinear_arith)
        requires
            p - last == 1,
    ;
    if last > x.start {
        lemma_open_gap(x, last, i);
        assert forall|q: int| x.start <= q < p implies open_gap(x, p, i) - d * e
            >= #[trigger] after_gap(x, q, p, i) by {
            if q < last {
                assert(open_gap(x, last, i) - (last - x.start) * e >= after_gap(x, q, last, i));
                assert((p - q) * e == (last - q) * e + e) by (nonlinear_arith)
                    requires
                        p - last == 1,
                ;
            }
        }
        if open_gap(x, p, i) == open_gap(x, last, i) && open_gap(x, p, i) != NEG {
            let q = choose|q: int|
                x.start <= q < last && open_gap(x, last, i) - (last - x.start) * e
                    == #[trigger] after_gap(x, q, last, i);
            assert((p - q) * e == (last - q) * e + e) by (nonlinear_arith)
                requires
                    p - last == 1,
            ;
            assert(open_gap(x, p, i) - d * e == after_gap(x, q, p, i));
        } else {
            assert(open_gap(x, p, i) == NEG || open_gap(x, p, i) - d * e == after_gap(
                x,
                last,
                p,
                i,
            ));
        }
    } else {
        assert(last == x.start);
        assert((d - 1) * e == 0) by (nonlinear_arith)
            requires
                d == 1,
        ;
        assert(open_gap(x, last, i) == NEG);
        assert(open_gap(x, p, i) == NEG || open_gap(x, p, i) - d * e == after_gap(x, last, p, i));
    }
}

/// A cell is worth the best of what stands there without a gap, what any gap
/// that ends there leaves, and nothing: the recurrence for affine gaps.
pub proof fn law_gaps_are_affine(x: Problem, p: int, i: int)
    requires
        x.w.wf(),
        x.start <= p,
        0 < i <= x.needle.len(),
    ensures
        full_cell(x, p, i) >= bare_cell(x, p, i),
        full_cell(x, p, i) >= 0,
        forall|q: int|
            x.start <= q < p ==> full_cell(x, p, i) >= #[trigger] after_gap(x, q, p, i),
        full_cell(x, p, i) == bare_cell(x, p, i) || full_cell(x, p, i) == 0 || exists|q: int|
            x.start <= q < p && full_cell(x, p, i) == #[trigger] after_gap(x, q, p, i),
{
    if p > x.start {
        lemma_open_gap(x, p, i);
        let d = p - x.start;
        let e = x.w.gap_extend as int;
        assert(0 <= d * e) by (nonlinear_arith)
            requires
                0 <= d,
                0 <= e,
        ;
    }
}

/// Cells and gaps of the column in front of `p` from row `i` on, and of column
/// `p` above it.
spec fn holds_column(x: Problem, p: int, i: int, h: Seq<i32>, g: Seq<i32>) -> bool {
    &&& h.len() == x.needle.len() + 1
    &&& g.len() == x.needle.len() + 1
    &&& forall|k: int|
        1 <= k < h.len() ==> (#[trigger] h[k]) == full_cell(
            x,
            if k < i {
                p
            } else {
                p - 1
            },
            k,
        )
    &&& forall|k: int|
        1 <= k < g.len() ==> (#[trigger] g[k]) == open_gap(
            x,
            if k < i {
                p + 1
            } else {
                p
            },
            k,
        )
}

/// Scores one more byte of the path.
fn score_column(
    w: &Weights,
    needle: &[u8],
    c: u8,
    worth: i32,
    colg: i32,
    h: &mut Vec<i32>,
    g: &mut Vec<i32>,
    x: Ghost<Problem>,
    p: Ghost<int>,
) -> (row: i32)
    requires
        w.wf(),
        x@.w == *w,
        x@.needle == needle@,
        0 < needle@.len() <= 64,
        0 <= x@.start <= p@ < x@.hay.len(),
        c == x@.hay[p@],
        worth == bonus_at(x@, p@),
        0 <= worth <= 4 * 65535,
        colg == (p@ - x@.start) * w.gap_extend,
        0 <= colg,
        colg + needle@.len() * weights::step_limit() <= i32::MAX,
        holds_column(x@, p@, 1, old(h)@, old(g)@),
    ensures
        row == full_cell(x@, p@, needle@.len() as int),
        holds_column(x@, p@ + 1, 1, final(h)@, final(g)@),
{
    let n: usize = needle.len();
    let mut diag: i32 = 0;
    let mut up: i32 = 0;
    let mut up_mm = false;
    let mut i: usize = 1;
    while i <= n
        invariant
            1 <= i <= n + 1,
            n == needle@.len() == x@.needle.len() <= 64,
            w.wf(),
            x@.w == *w,
            x@.needle == needle@,
            0 <= x@.start <= p@ < x@.hay.len(),
            c == x@.hay[p@],
            worth == bonus_at(x@, p@),
            0 <= worth <= 4 * 65535,
            colg == (p@ - x@.start) * w.gap_extend,
            0 <= colg,
            colg + n * weights::step_limit() <= i32::MAX,
            holds_column(x@, p@, i as int, h@, g@),
            diag == full_cell(x@, p@ - 1, i - 1),
            up == full_cell(x@, p@, i - 1),
            up_mm == matches_at(x@, p@, i - 1),
        decreases n + 1 - i,
    {
        proof {
            lemma_cell_bound(x@, p@ - 1, i - 1);
            lemma_cell_bound(x@, p@, i - 1);
            lemma_cell_bound(x@, p@, i as int);
            lemma_cell_bound(x@, p@ - 1, i as int);
            let limit = weights::step_limit();
            assert((i - 1) * limit <= 64 * limit && i * limit <= n * limit <= 64 * limit)
                by (nonlinear_arith)
                requires
                    1 <= i <= n <= 64,
                    limit == 327675,
            ;
        }
        let nc: u8 = needle[i - 1];
        let m = c == nc || c == flip_case(nc);
        let pre: i32 = score_cell(w, c, nc, worth, diag, up, up_mm);
        assert(pre == bare_cell(x@, p@, i as int));
        let gap: i32 = g[i];
        assert(gap == open_gap(x@, p@, i as int));
        proof {
            lemma_gap_floor(x@, p@, i as int);
            if p@ == x@.start {
                assert((p@ - x@.start) * w.gap_extend == 0) by (nonlinear_arith)
                    requires
                        p@ == x@.start,
                ;
            }
        }
        let row: i32 = max(pre, max(gap - colg, 0));
        let open: i32 = if m {
            w.gap_open
        } else {
            0
        };
        g.set(i, max(gap, pre - open + colg));
        assert(g@[i as int] == open_gap(x@, p@ + 1, i as int));
        diag = h[i];
        h.set(i, row);
        up = row;
        up_mm = m;
        i += 1;
    }
    up
}

/// Behind its first byte the window always leaves a gap.
proof fn lemma_gap_floor(x: Problem, p: int, i: int)
    requires
        x.w.wf(),
        0 <= i <= x.needle.len(),
    ensures
        open_gap(x, p, i) >= NEG,
        p > x.start && i > 0 ==> open_gap(x, p, i) >= -65535,
{
    if p > x.start && i > 0 {
        lemma_gap_floor_step(x, p, i);
    }
}

proof fn lemma_gap_floor_step(x: Problem, p: int, i: int)
    requires
        x.w.wf(),
        0 < i <= x.needle.len(),
        p > x.start,
    ensures
        open_gap(x, p, i) >= -65535,
{
    lemma_cell_bound(x, p - 1, i);
    let d = p - 1 - x.start;
    let e = x.w.gap_extend as int;
    assert(0 <= d * e) by (nonlinear_arith)
        requires
            0 <= d,
            0 <= e,
    ;
}

/// Scores a needle in a path, byte by byte. Only the first 64 bytes of the
/// needle are looked at. A gap as long as the path, on top of the highest
/// score, has to fit thirty-two bits.
pub fn score_scalar(needle: &[u8], hay: &[u8], s: &Scoring) -> (r: u32)
    requires
        weights::is_usable(*s),
        hay@.len() * s.gap_extend_penalty + cut(needle@).len() * weights::step_limit() <= i32::MAX,
    ensures
        is_score(weights::weights_of(*s), cut(needle@), hay@, r as int),
{
    let n: usize = if needle.len() > 64 {
        64
    } else {
        needle.len()
    };
    let ghost whole = needle@;
    let needle = vstd::slice::slice_subrange(needle, 0, n);
    assert(needle@ =~= cut(whole));
    let w = Weights::new(s);
    let (win_start, win_end) = match prefilter_window(needle, hay) {
        Some((a, b)) => (a, b),
        None => {
            return 0;
        },
    };
    let ghost x = Problem { w, needle: needle@, hay: hay@, start: win_start as int };
    let mut h: Vec<i32> = Vec::new();
    let mut g: Vec<i32> = Vec::new();
    let mut k: usize = 0;
    while k < n + 1
        invariant
            k <= n + 1,
            n <= 64,
            h@.len() == k,
            g@.len() == k,
            forall|j: int| 0 <= j < k ==> (#[trigger] h@[j]) == 0,
            forall|j: int| 0 <= j < k ==> (#[trigger] g@[j]) == NEG,
        decreases n + 1 - k,
    {
        h.push(0);
        g.push(NEG);
        k += 1;
    }
    let mut best: i32 = 0;
    let mut pos: usize = win_start;
    while pos < win_end
        invariant
            win_start <= pos <= win_end <= hay@.len(),
            w.wf(),
            w.gap_extend == s.gap_extend_penalty,
            x == (Problem { w, needle: needle@, hay: hay@, start: win_start as int }),
            n == needle@.len(),
            0 < n <= 64,
            hay@.len() * s.gap_extend_penalty + n * weights::step_limit() <= i32::MAX,
            holds_column(x, pos as int, 1, h@, g@),
            best == best_before(x, pos as int),
        decreases win_end - pos,
    {
        let c: u8 = hay[pos];
        let prev: u8 = if pos > 0 {
            hay[pos - 1]
        } else {
            0
        };
        let worth: i32 = bonus(
            &w,
            c,
            97 <= prev && prev <= 122,
            pos > 0 && delimits(prev),
            pos == 0,
        );
        assert(worth == bonus_at(x, pos as int));
        proof {
            let d = pos - win_start;
            let e = w.gap_extend as int;
            let len = hay@.len() as int;
            assert(0 <= d * e <= len * e) by (nonlinear_arith)
                requires
                    0 <= d <= len,
                    0 <= e,
            ;
        }
        let colg: i32 = ((pos - win_start) as u64 * w.gap_extend as u64) as i32;
        let row: i32 = score_column(
            &w,
            needle,
            c,
            worth,
            colg,
            &mut h,
            &mut g,
            Ghost(x),
            Ghost(pos as int),
        );
        best = max(best, row);
        pos += 1;
    }
    proof {
        lemma_best_bound(x, win_end as int);
        assert(window::is_window(needle@, hay@, win_start as int, win_end as int));
    }
    if hay.len() == n && best > 0 {
        best += w.exact;
    }
    best as u32
}

} // verus!
