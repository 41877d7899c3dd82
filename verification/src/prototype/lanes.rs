//! Scoring a few bytes of a path at once, one in each lane.

use crate::gpu::matcher::Scoring;
use crate::prototype::columns;
use crate::prototype::weights;
use crate::prototype::weights::{bonus, delimits, max, score_cell, Weights};
use crate::prototype::window;
use crate::prototype::window::{flip_case, prefilter_window};
use vstd::prelude::*;

verus! {

/// A needle being looked for in a window of a path.
pub struct Problem {
    pub w: Weights,
    pub needle: Seq<u8>,
    pub hay: Seq<u8>,
    pub start: int,
    pub end: int,
    pub lanes: int,
}

/// Byte `j` of the window; zeros are behind it.
pub open spec fn char_at(x: Problem, j: int) -> u8 {
    if x.start + j < x.end {
        x.hay[x.start + j]
    } else {
        0
    }
}

/// What matching byte `j` of the window is worth. What is in front of the
/// window does not count.
pub open spec fn bonus_at(x: Problem, j: int) -> int {
    weights::bonus_of(
        x.w,
        char_at(x, j),
        j > 0 && window::is_lower(char_at(x, j - 1)),
        j > 0 && weights::is_delimiter(char_at(x, j - 1)),
        x.start + j == 0,
    )
}

/// Which lanes of chunk `t` match needle byte `i`, counted from one.
pub open spec fn match_row(x: Problem, t: int, i: int) -> Seq<bool> {
    Seq::new(
        x.lanes as nat,
        |l: int| t >= 0 && i > 0 && window::alike(char_at(x, t * x.lanes + l), x.needle[i - 1]),
    )
}

/// Cells of a chunk before gaps along the path.
pub open spec fn bare_cells(
    w: Weights,
    chars: Seq<u8>,
    bonuses: Seq<int>,
    nc: u8,
    corner: int,
    above: Seq<int>,
    above_matched: Seq<bool>,
) -> Seq<int> {
    Seq::new(
        chars.len(),
        |l: int|
            weights::cell(
                w,
                chars[l],
                nc,
                bonuses[l],
                if l > 0 {
                    above[l - 1]
                } else {
                    corner
                },
                above[l],
                above_matched[l],
            ),
    )
}

/// Cell that lies `shift` bytes in front of lane `l`, and whether it matched.
pub open spec fn behind(
    row: Seq<int>,
    matched: Seq<bool>,
    last: Seq<int>,
    last_matched: Seq<bool>,
    shift: int,
    l: int,
) -> (int, bool) {
    if l >= shift {
        (row[l - shift], matched[l - shift])
    } else {
        (last[row.len() - shift + l], last_matched[row.len() - shift + l])
    }
}

/// What a cell is worth at the end of a gap.
pub open spec fn after_gap(from: (int, bool), gap: int, gap_open: int) -> int {
    from.0 - gap - (if from.1 {
        gap_open
    } else {
        0
    })
}

/// Lets gaps of `shift` bytes end in every lane.
pub open spec fn spread_step(
    row: Seq<int>,
    matched: Seq<bool>,
    last: Seq<int>,
    last_matched: Seq<bool>,
    gap_open: int,
    gap: int,
    shift: int,
) -> Seq<int> {
    Seq::new(
        row.len(),
        |l: int|
            weights::larger(
                row[l],
                weights::larger(
                    after_gap(behind(row, matched, last, last_matched, shift, l), gap, gap_open),
                    0,
                ),
            ),
    )
}

/// Lets gaps of `shift` bytes, of twice as many, and so on end in every lane.
pub open spec fn spread(
    row: Seq<int>,
    matched: Seq<bool>,
    last: Seq<int>,
    last_matched: Seq<bool>,
    gap_open: int,
    gap: int,
    shift: int,
) -> Seq<int>
    decreases 2 * row.len() - shift,
{
    if shift <= 0 || shift >= row.len() {
        row
    } else {
        spread(
            spread_step(row, matched, last, last_matched, gap_open, gap, shift),
            matched,
            last,
            last_matched,
            gap_open,
            gap * 2,
            shift * 2,
        )
    }
}

/// `shift` doubled until it spans all lanes.
pub open spec fn reach(shift: int, lanes: int) -> int
    decreases 2 * lanes - shift,
{
    if shift <= 0 || shift >= lanes {
        shift
    } else {
        reach(shift * 2, lanes)
    }
}

proof fn lemma_reach(shift: int, lanes: int)
    requires
        0 < shift,
    ensures
        shift <= reach(shift, lanes),
    decreases 2 * lanes - shift,
{
    if shift < lanes {
        lemma_reach(shift * 2, lanes);
    }
}

pub open spec fn chars_of(x: Problem, t: int) -> Seq<u8> {
    Seq::new(x.lanes as nat, |l: int| char_at(x, t * x.lanes + l))
}

pub open spec fn bonuses_of(x: Problem, t: int) -> Seq<int> {
    Seq::new(x.lanes as nat, |l: int| bonus_at(x, t * x.lanes + l))
}

pub open spec fn zeros(n: int) -> Seq<int> {
    Seq::new(n as nat, |l: int| 0)
}

/// Cells of chunk `t` for the first `i` needle bytes.
pub open spec fn row_of(x: Problem, t: int, i: int) -> Seq<int>
    decreases t + 1, i,
{
    if t < 0 || i <= 0 {
        zeros(x.lanes)
    } else {
        spread(
            bare_cells(
                x.w,
                chars_of(x, t),
                bonuses_of(x, t),
                x.needle[i - 1],
                row_of(x, t - 1, i - 1)[x.lanes - 1],
                row_of(x, t, i - 1),
                match_row(x, t, i - 1),
            ),
            match_row(x, t, i),
            row_of(x, t - 1, i),
            match_row(x, t - 1, i),
            x.w.gap_open as int,
            x.w.gap_extend as int,
            1,
        )
    }
}

/// The largest of the first `n` values, and no less than nothing.
pub open spec fn most(row: Seq<int>, n: int) -> int
    decreases n,
{
    if n <= 0 {
        0
    } else {
        weights::larger(most(row, n - 1), row[n - 1])
    }
}

/// The best score at which the whole needle ends in the first `t` chunks.
pub open spec fn best_of(x: Problem, t: int) -> int
    decreases t,
{
    if t <= 0 {
        0
    } else {
        weights::larger(
            best_of(x, t - 1),
            most(row_of(x, t - 1, x.needle.len() as int), x.lanes),
        )
    }
}

/// Chunks that a window takes.
pub open spec fn chunk_count(x: Problem) -> int {
    (x.end - x.start + x.lanes - 1) / x.lanes
}

/// `score` is what the needle scores in the path with that many lanes: nothing
/// where its bytes do not occur in order.
pub open spec fn is_lane_score(
    w: Weights,
    needle: Seq<u8>,
    hay: Seq<u8>,
    lanes: int,
    score: int,
) -> bool {
    if needle.len() == 0 || !window::occurs(needle, hay) {
        score == 0
    } else {
        exists|start: int, end: int| #[trigger]
            window::is_window(needle, hay, start, end) && score == window_score(
                Problem { w, needle, hay, start, end, lanes },
            )
    }
}

/// The score over a window.
pub open spec fn window_score(x: Problem) -> int {
    columns::with_exact(best_of(x, chunk_count(x)), x.hay.len() == x.needle.len(), x.w)
}

pub open spec fn ints(v: Seq<i32>) -> Seq<int> {
    Seq::new(v.len(), |l: int| v[l] as int)
}

/// Every value lies in `0..=limit`.
spec fn limited(row: Seq<int>, limit: int) -> bool {
    forall|l: int| 0 <= l < row.len() ==> 0 <= #[trigger] row[l] <= limit
}

proof fn lemma_spread_limited(
    row: Seq<int>,
    matched: Seq<bool>,
    last: Seq<int>,
    last_matched: Seq<bool>,
    gap_open: int,
    gap: int,
    shift: int,
    limit: int,
)
    requires
        limited(row, limit),
        limited(last, limit),
        last.len() == row.len(),
        0 <= gap_open,
        0 <= gap,
        0 <= limit,
    ensures
        limited(spread(row, matched, last, last_matched, gap_open, gap, shift), limit),
        spread(row, matched, last, last_matched, gap_open, gap, shift).len() == row.len(),
    decreases 2 * row.len() - shift,
{
    if !(shift <= 0 || shift >= row.len()) {
        let next = spread_step(row, matched, last, last_matched, gap_open, gap, shift);
        assert forall|l: int| 0 <= l < next.len() implies 0 <= #[trigger] next[l] <= limit by {
            assert(0 <= row[l] <= limit);
            if l >= shift {
                assert(0 <= row[l - shift] <= limit);
            } else {
                assert(0 <= last[row.len() - shift + l] <= limit);
            }
        }
        lemma_spread_limited(
            next,
            matched,
            last,
            last_matched,
            gap_open,
            gap * 2,
            shift * 2,
            limit,
        );
    }
}

proof fn lemma_row_limited(x: Problem, t: int, i: int)
    requires
        x.w.wf(),
        x.lanes > 0,
    ensures
        row_of(x, t, i).len() == x.lanes,
        i >= 0 ==> limited(row_of(x, t, i), i * weights::step_limit()),
    decreases t + 1, i,
{
    let limit = weights::step_limit();
    if i >= 0 {
        assert(0 <= i * limit) by (nonlinear_arith)
            requires
                0 <= i,
                limit == 327675,
        ;
    }
    if t >= 0 && i > 0 {
        lemma_row_limited(x, t - 1, i - 1);
        lemma_row_limited(x, t, i - 1);
        lemma_row_limited(x, t - 1, i);
        assert((i - 1) * limit + limit == i * limit) by (nonlinear_arith);
        let corner = row_of(x, t - 1, i - 1)[x.lanes - 1];
        let above = row_of(x, t, i - 1);
        let bare = bare_cells(
            x.w,
            chars_of(x, t),
            bonuses_of(x, t),
            x.needle[i - 1],
            corner,
            above,
            match_row(x, t, i - 1),
        );
        assert forall|l: int| 0 <= l < bare.len() implies 0 <= #[trigger] bare[l] <= i * limit by {
            assert(0 <= above[l] <= (i - 1) * limit);
            if l > 0 {
                assert(0 <= above[l - 1] <= (i - 1) * limit);
            }
        }
        lemma_spread_limited(
            bare,
            match_row(x, t, i),
            row_of(x, t - 1, i),
            match_row(x, t - 1, i),
            x.w.gap_open as int,
            x.w.gap_extend as int,
            1,
            i * limit,
        );
    }
}

proof fn lemma_best_limited(x: Problem, t: int)
    requires
        x.w.wf(),
        x.lanes > 0,
    ensures
        0 <= best_of(x, t) <= x.needle.len() * weights::step_limit(),
    decreases t,
{
    let limit = weights::step_limit();
    let n = x.needle.len() as int;
    assert(0 <= n * limit) by (nonlinear_arith)
        requires
            0 <= n,
            limit == 327675,
    ;
    if t > 0 {
        lemma_best_limited(x, t - 1);
        lemma_row_limited(x, t - 1, n);
        lemma_most_limited(row_of(x, t - 1, n), x.lanes, n * limit);
    }
}

proof fn lemma_most_limited(row: Seq<int>, n: int, limit: int)
    requires
        limited(row, limit),
        n <= row.len(),
        0 <= limit,
    ensures
        0 <= most(row, n) <= limit,
    decreases n,
{
    if n > 0 {
        lemma_most_limited(row, n - 1, limit);
    }
}

fn blank(n: usize) -> (r: Vec<i32>)
    ensures
        ints(r@) == zeros(n as int),
{
    let mut out: Vec<i32> = Vec::new();
    let mut i: usize = 0;
    while i < n
        invariant
            i <= n,
            out@.len() == i,
            forall|k: int| 0 <= k < i ==> (#[trigger] out@[k]) == 0,
        decreases n - i,
    {
        out.push(0);
        i += 1;
    }
    assert(ints(out@) =~= zeros(n as int));
    out
}

fn no_match(n: usize, x: Ghost<Problem>, t: Ghost<int>, i: Ghost<int>) -> (r: Vec<bool>)
    requires
        n == x@.lanes,
        t@ < 0 || i@ <= 0,
    ensures
        r@ == match_row(x@, t@, i@),
{
    let mut out: Vec<bool> = Vec::new();
    let mut k: usize = 0;
    while k < n
        invariant
            k <= n,
            out@.len() == k,
            forall|m: int| 0 <= m < k ==> !(#[trigger] out@[m]),
        decreases n - k,
    {
        out.push(false);
        k += 1;
    }
    assert(out@ =~= match_row(x@, t@, i@));
    out
}

fn match_lanes(chars: &Vec<u8>, nc: u8) -> (r: Vec<bool>)
    ensures
        r@.len() == chars@.len(),
        forall|l: int| 0 <= l < r@.len() ==> (#[trigger] r@[l]) == window::alike(chars@[l], nc),
{
    let mut out: Vec<bool> = Vec::new();
    let mut l: usize = 0;
    while l < chars.len()
        invariant
            l <= chars@.len(),
            out@.len() == l,
            forall|k: int| 0 <= k < l ==> (#[trigger] out@[k]) == window::alike(chars@[k], nc),
        decreases chars@.len() - l,
    {
        let c: u8 = chars[l];
        out.push(c == nc || c == flip_case(nc));
        l += 1;
    }
    out
}

/// Cells of a chunk before gaps along the path.
fn score_lanes(
    w: &Weights,
    chars: &Vec<u8>,
    bonuses: &Vec<i32>,
    nc: u8,
    corner: i32,
    above: &Vec<i32>,
    above_matched: &Vec<bool>,
) -> (r: Vec<i32>)
    requires
        w.wf(),
        bonuses@.len() == chars@.len(),
        above@.len() == chars@.len(),
        above_matched@.len() == chars@.len(),
        forall|l: int| 0 <= l < bonuses@.len() ==> 0 <= #[trigger] bonuses@[l] <= 4 * 65535,
        0 <= corner <= 64 * weights::step_limit(),
        limited(ints(above@), 64 * weights::step_limit()),
    ensures
        ints(r@) == bare_cells(
            *w,
            chars@,
            ints(bonuses@),
            nc,
            corner as int,
            ints(above@),
            above_matched@,
        ),
{
    let ghost cells = bare_cells(
        *w,
        chars@,
        ints(bonuses@),
        nc,
        corner as int,
        ints(above@),
        above_matched@,
    );
    let mut out: Vec<i32> = Vec::new();
    let mut l: usize = 0;
    while l < chars.len()
        invariant
            w.wf(),
            l <= chars@.len(),
            bonuses@.len() == chars@.len(),
            above@.len() == chars@.len(),
            above_matched@.len() == chars@.len(),
            forall|l: int| 0 <= l < bonuses@.len() ==> 0 <= #[trigger] bonuses@[l] <= 4 * 65535,
            0 <= corner <= 64 * weights::step_limit(),
            limited(ints(above@), 64 * weights::step_limit()),
            cells == bare_cells(
                *w,
                chars@,
                ints(bonuses@),
                nc,
                corner as int,
                ints(above@),
                above_matched@,
            ),
            out@.len() == l,
            forall|k: int| 0 <= k < l ==> (#[trigger] out@[k]) == cells[k],
        decreases chars@.len() - l,
    {
        assert(0 <= ints(above@)[l as int] <= 64 * weights::step_limit());
        let diagonal: i32 = if l > 0 {
            assert(0 <= ints(above@)[l - 1] <= 64 * weights::step_limit());
            above[l - 1]
        } else {
            corner
        };
        out.push(score_cell(w, chars[l], nc, bonuses[l], diagonal, above[l], above_matched[l]));
        l += 1;
    }
    assert(ints(out@) =~= cells);
    out
}

/// Lets gaps of `shift` bytes end in every lane.
fn spread_once(
    row: &Vec<i32>,
    matched: &Vec<bool>,
    last: &Vec<i32>,
    last_matched: &Vec<bool>,
    gap_open: i32,
    gap: i32,
    shift: usize,
) -> (r: Vec<i32>)
    requires
        0 < shift < row@.len(),
        matched@.len() == row@.len(),
        last@.len() == row@.len(),
        last_matched@.len() == row@.len(),
        limited(ints(row@), 64 * weights::step_limit()),
        limited(ints(last@), 64 * weights::step_limit()),
        0 <= gap_open <= 65535,
        0 <= gap <= 0x4000_0000,
    ensures
        ints(r@) == spread_step(
            ints(row@),
            matched@,
            ints(last@),
            last_matched@,
            gap_open as int,
            gap as int,
            shift as int,
        ),
{
    let n: usize = row.len();
    let ghost cells = spread_step(
        ints(row@),
        matched@,
        ints(last@),
        last_matched@,
        gap_open as int,
        gap as int,
        shift as int,
    );
    let mut out: Vec<i32> = Vec::new();
    let mut l: usize = 0;
    while l < n
        invariant
            n == row@.len(),
            l <= n,
            0 < shift < n,
            matched@.len() == n,
            last@.len() == n,
            last_matched@.len() == n,
            limited(ints(row@), 64 * weights::step_limit()),
            limited(ints(last@), 64 * weights::step_limit()),
            0 <= gap_open <= 65535,
            0 <= gap <= 0x4000_0000,
            cells == spread_step(
                ints(row@),
                matched@,
                ints(last@),
                last_matched@,
                gap_open as int,
                gap as int,
                shift as int,
            ),
            out@.len() == l,
            forall|k: int| 0 <= k < l ==> (#[trigger] out@[k]) == cells[k],
        decreases n - l,
    {
        let (from, from_matched) = if l >= shift {
            assert(0 <= ints(row@)[l - shift] <= 64 * weights::step_limit());
            (row[l - shift], matched[l - shift])
        } else {
            assert(0 <= ints(last@)[n - shift + l] <= 64 * weights::step_limit());
            (last[n - shift + l], last_matched[n - shift + l])
        };
        let open: i32 = if from_matched {
            gap_open
        } else {
            0
        };
        out.push(max(row[l], max(from - (gap + open), 0)));
        assert(out@[l as int] == cells[l as int]);
        l += 1;
    }
    assert(ints(out@) =~= cells);
    out
}

/// Lets gaps along the path end in every lane.
fn spread_gaps(
    bare: Vec<i32>,
    matched: &Vec<bool>,
    last: &Vec<i32>,
    last_matched: &Vec<bool>,
    gap_open: i32,
    gap_extend: i32,
) -> (r: Vec<i32>)
    requires
        0 < bare@.len(),
        2 * bare@.len() <= usize::MAX,
        matched@.len() == bare@.len(),
        last@.len() == bare@.len(),
        last_matched@.len() == bare@.len(),
        limited(ints(bare@), 64 * weights::step_limit()),
        limited(ints(last@), 64 * weights::step_limit()),
        0 <= gap_open <= 65535,
        0 <= gap_extend <= 65535,
        reach(1, bare@.len() as int) * gap_extend <= i32::MAX,
    ensures
        ints(r@) == spread(
            ints(bare@),
            matched@,
            ints(last@),
            last_matched@,
            gap_open as int,
            gap_extend as int,
            1,
        ),
{
    let n: usize = bare.len();
    let ghost goal = spread(
        ints(bare@),
        matched@,
        ints(last@),
        last_matched@,
        gap_open as int,
        gap_extend as int,
        1,
    );
    let mut row = bare;
    let mut gap: i32 = gap_extend;
    let mut shift: usize = 1;
    while shift < n
        invariant
            0 < shift,
            shift < 2 * n,
            0 < n == row@.len(),
            2 * n <= usize::MAX,
            matched@.len() == n,
            last@.len() == n,
            last_matched@.len() == n,
            limited(ints(row@), 64 * weights::step_limit()),
            limited(ints(last@), 64 * weights::step_limit()),
            0 <= gap_open <= 65535,
            0 <= gap_extend <= 65535,
            reach(shift as int, n as int) == reach(1, n as int),
            reach(1, n as int) * gap_extend <= i32::MAX,
            gap == shift * gap_extend,
            goal == spread(
                ints(row@),
                matched@,
                ints(last@),
                last_matched@,
                gap_open as int,
                gap as int,
                shift as int,
            ),
        decreases 2 * n - shift,
    {
        proof {
            let far = reach(1, n as int);
            lemma_reach(shift * 2, n as int);
            assert(0 <= (shift * 2) * gap_extend <= far * gap_extend) by (nonlinear_arith)
                requires
                    0 < shift * 2 <= far,
                    0 <= gap_extend,
            ;
            assert((shift * 2) * gap_extend == 2 * (shift * gap_extend)) by (nonlinear_arith);
            lemma_step_limited(
                ints(row@),
                matched@,
                ints(last@),
                last_matched@,
                gap_open as int,
                gap as int,
                shift as int,
                64 * weights::step_limit(),
            );
        }
        row = spread_once(&row, matched, last, last_matched, gap_open, gap, shift);
        assert(row@.len() == ints(row@).len());
        gap = gap * 2;
        shift = shift * 2;
    }
    row
}

proof fn lemma_step_limited(
    row: Seq<int>,
    matched: Seq<bool>,
    last: Seq<int>,
    last_matched: Seq<bool>,
    gap_open: int,
    gap: int,
    shift: int,
    limit: int,
)
    requires
        limited(row, limit),
        limited(last, limit),
        last.len() == row.len(),
        0 <= gap_open,
        0 <= gap,
        0 < shift < row.len(),
        0 <= limit,
    ensures
        limited(spread_step(row, matched, last, last_matched, gap_open, gap, shift), limit),
{
    let next = spread_step(row, matched, last, last_matched, gap_open, gap, shift);
    assert forall|l: int| 0 <= l < next.len() implies 0 <= #[trigger] next[l] <= limit by {
        assert(0 <= row[l] <= limit);
        if l >= shift {
            assert(0 <= row[l - shift] <= limit);
        } else {
            assert(0 <= last[row.len() - shift + l] <= limit);
        }
    }
}

/// Bytes of chunk `t`, and what matching each of them is worth.
fn read_chunk(w: &Weights, hay: &[u8], start: usize, end: usize, base: usize, lanes: usize, x: Ghost<
    Problem,
>, t: Ghost<int>) -> (r: (Vec<u8>, Vec<i32>))
    requires
        w.wf(),
        x@.w == *w,
        x@.hay == hay@,
        x@.start == start,
        x@.end == end,
        x@.lanes == lanes,
        start <= base < end <= hay@.len(),
        base == start + t@ * lanes,
        0 <= t@,
        hay@.len() + lanes <= usize::MAX,
    ensures
        r.0@ == chars_of(x@, t@),
        ints(r.1@) == bonuses_of(x@, t@),
        forall|l: int| 0 <= l < r.1@.len() ==> 0 <= #[trigger] r.1@[l] <= 4 * 65535,
{
    let mut chars: Vec<u8> = Vec::new();
    let mut bonuses: Vec<i32> = Vec::new();
    let mut l: usize = 0;
    while l < lanes
        invariant
            w.wf(),
            x@.w == *w,
            x@.hay == hay@,
            x@.start == start,
            x@.end == end,
            x@.lanes == lanes,
            start <= base < end <= hay@.len(),
            base == start + t@ * lanes,
            hay@.len() + lanes <= usize::MAX,
            l <= lanes,
            chars@.len() == l,
            bonuses@.len() == l,
            forall|k: int| 0 <= k < l ==> (#[trigger] chars@[k]) == char_at(x@, t@ * lanes + k),
            forall|k: int|
                0 <= k < l ==> (#[trigger] bonuses@[k]) == bonus_at(x@, t@ * lanes + k),
            forall|k: int| 0 <= k < l ==> 0 <= #[trigger] bonuses@[k] <= 4 * 65535,
        decreases lanes - l,
    {
        let p: usize = base + l;
        let c: u8 = if p < end {
            hay[p]
        } else {
            0
        };
        let prev: u8 = if p > start && p - 1 < end {
            hay[p - 1]
        } else {
            0
        };
        let inside = p > start;
        chars.push(c);
        bonuses.push(
            bonus(w, c, inside && 97 <= prev && prev <= 122, inside && delimits(prev), p == 0),
        );
        l += 1;
    }
    assert(chars@ =~= chars_of(x@, t@));
    assert(ints(bonuses@) =~= bonuses_of(x@, t@));
    (chars, bonuses)
}

/// `rows` and `matched` are those of chunk `t`.
spec fn holds_rows(x: Problem, t: int, rows: Seq<Vec<i32>>, matched: Seq<Vec<bool>>, n: int) -> bool {
    &&& rows.len() == n
    &&& matched.len() == n
    &&& forall|i: int| 0 <= i < n ==> ints((#[trigger] rows[i])@) == row_of(x, t, i)
    &&& forall|i: int| 0 <= i < n ==> (#[trigger] matched[i])@ == match_row(x, t, i)
}

/// Scores one more chunk.
fn score_chunk(
    w: &Weights,
    needle: &[u8],
    chars: &Vec<u8>,
    bonuses: &Vec<i32>,
    last: &Vec<Vec<i32>>,
    last_matched: &Vec<Vec<bool>>,
    x: Ghost<Problem>,
    t: Ghost<int>,
) -> (r: (Vec<Vec<i32>>, Vec<Vec<bool>>))
    requires
        w.wf(),
        x@.w == *w,
        x@.needle == needle@,
        0 < needle@.len() <= 64,
        0 < x@.lanes,
        2 * x@.lanes <= usize::MAX,
        reach(1, x@.lanes) * w.gap_extend <= i32::MAX,
        0 <= t@,
        chars@ == chars_of(x@, t@),
        ints(bonuses@) == bonuses_of(x@, t@),
        forall|l: int| 0 <= l < bonuses@.len() ==> 0 <= #[trigger] bonuses@[l] <= 4 * 65535,
        holds_rows(x@, t@ - 1, last@, last_matched@, (needle@.len() + 1) as int),
    ensures
        holds_rows(x@, t@, r.0@, r.1@, (needle@.len() + 1) as int),
{
    let n: usize = needle.len();
    let lanes: usize = chars.len();
    let mut rows: Vec<Vec<i32>> = Vec::new();
    let mut matched: Vec<Vec<bool>> = Vec::new();
    rows.push(blank(lanes));
    matched.push(no_match(lanes, x, t, Ghost(0)));
    let mut i: usize = 1;
    while i <= n
        invariant
            1 <= i <= n + 1,
            n == needle@.len() <= 64,
            lanes == chars@.len() == x@.lanes,
            w.wf(),
            x@.w == *w,
            x@.needle == needle@,
            0 < x@.lanes,
            2 * x@.lanes <= usize::MAX,
            reach(1, x@.lanes) * w.gap_extend <= i32::MAX,
            0 <= t@,
            chars@ == chars_of(x@, t@),
            ints(bonuses@) == bonuses_of(x@, t@),
            forall|l: int| 0 <= l < bonuses@.len() ==> 0 <= #[trigger] bonuses@[l] <= 4 * 65535,
            holds_rows(x@, t@ - 1, last@, last_matched@, n + 1),
            holds_rows(x@, t@, rows@, matched@, i as int),
        decreases n + 1 - i,
    {
        let nc: u8 = needle[i - 1];
        proof {
            lemma_row_limited(x@, t@ - 1, i - 1);
            lemma_row_limited(x@, t@ - 1, i as int);
            lemma_row_limited(x@, t@, i - 1);
            lemma_limits(i as int);
            assert(ints(last@[i - 1]@) == row_of(x@, t@ - 1, i - 1));
            assert(ints(last@[i as int]@) == row_of(x@, t@ - 1, i as int));
            assert(ints(rows@[i - 1]@) == row_of(x@, t@, i - 1));
            assert(matched@[i - 1]@ == match_row(x@, t@, i - 1));
            assert(last_matched@[i as int]@ == match_row(x@, t@ - 1, i as int));
            assert(last@[i - 1]@.len() == lanes) by {
                assert(ints(last@[i - 1]@).len() == lanes);
            }
            assert(last@[i as int]@.len() == lanes) by {
                assert(ints(last@[i as int]@).len() == lanes);
            }
            assert(rows@[i - 1]@.len() == lanes) by {
                assert(ints(rows@[i - 1]@).len() == lanes);
            }
            assert(ints(last@[i - 1]@)[lanes - 1] == last@[i - 1]@[lanes - 1]);
            assert(bonuses@.len() == lanes) by {
                assert(ints(bonuses@).len() == lanes);
            }
        }
        let corner: i32 = last[i - 1][lanes - 1];
        let bare = score_lanes(w, chars, bonuses, nc, corner, &rows[i - 1], &matched[i - 1]);
        let hit = match_lanes(chars, nc);
        assert(hit@ =~= match_row(x@, t@, i as int));
        proof {
            lemma_bare_limited(x@, t@, i as int);
        }
        assert(bare@.len() == lanes) by {
            assert(ints(bare@).len() == lanes);
        }
        let row = spread_gaps(
            bare,
            &hit,
            &last[i],
            &last_matched[i],
            w.gap_open,
            w.gap_extend,
        );
        assert(ints(row@) == row_of(x@, t@, i as int));
        rows.push(row);
        matched.push(hit);
        i += 1;
    }
    (rows, matched)
}

proof fn lemma_limits(i: int)
    requires
        1 <= i <= 64,
    ensures
        (i - 1) * weights::step_limit() <= 64 * weights::step_limit(),
        i * weights::step_limit() <= 64 * weights::step_limit(),
{
    let limit = weights::step_limit();
    assert((i - 1) * limit <= 64 * limit && i * limit <= 64 * limit) by (nonlinear_arith)
        requires
            1 <= i <= 64,
            limit == 327675,
    ;
}

proof fn lemma_bare_limited(x: Problem, t: int, i: int)
    requires
        x.w.wf(),
        x.lanes > 0,
        0 <= t,
        1 <= i <= 64,
    ensures
        limited(
            bare_cells(
                x.w,
                chars_of(x, t),
                bonuses_of(x, t),
                x.needle[i - 1],
                row_of(x, t - 1, i - 1)[x.lanes - 1],
                row_of(x, t, i - 1),
                match_row(x, t, i - 1),
            ),
            64 * weights::step_limit(),
        ),
{
    let limit = weights::step_limit();
    lemma_row_limited(x, t - 1, i - 1);
    lemma_row_limited(x, t, i - 1);
    lemma_limits(i);
    assert((i - 1) * limit + limit == i * limit) by (nonlinear_arith);
    let above = row_of(x, t, i - 1);
    let bare = bare_cells(
        x.w,
        chars_of(x, t),
        bonuses_of(x, t),
        x.needle[i - 1],
        row_of(x, t - 1, i - 1)[x.lanes - 1],
        above,
        match_row(x, t, i - 1),
    );
    assert forall|l: int| 0 <= l < bare.len() implies 0 <= #[trigger] bare[l] <= 64 * limit by {
        assert(0 <= above[l] <= (i - 1) * limit);
        if l > 0 {
            assert(0 <= above[l - 1] <= (i - 1) * limit);
        }
    }
}

fn largest(row: &Vec<i32>) -> (r: i32)
    requires
        limited(ints(row@), 64 * weights::step_limit()),
    ensures
        r == most(ints(row@), row@.len() as int),
{
    let mut best: i32 = 0;
    let mut l: usize = 0;
    while l < row.len()
        invariant
            l <= row@.len(),
            best == most(ints(row@), l as int),
        decreases row@.len() - l,
    {
        best = max(best, row[l]);
        l += 1;
    }
    best
}

/// Scores a needle in a path, `lanes` bytes at once. Only the first 64 bytes of
/// the needle are looked at. What a gap over all lanes costs has to fit
/// thirty-two bits.
pub fn score(needle: &[u8], hay: &[u8], s: &Scoring, lanes: usize) -> (r: u32)
    requires
        weights::is_usable(*s),
        0 < lanes,
        2 * lanes <= usize::MAX,
        hay@.len() + lanes <= usize::MAX,
        reach(1, lanes as int) * s.gap_extend_penalty <= i32::MAX,
    ensures
        is_lane_score(
            weights::weights_of(*s),
            columns::cut(needle@),
            hay@,
            lanes as int,
            r as int,
        ),
{
    let n: usize = if needle.len() > 64 {
        64
    } else {
        needle.len()
    };
    let ghost whole = needle@;
    let needle = vstd::slice::slice_subrange(needle, 0, n);
    assert(needle@ =~= columns::cut(whole));
    let w = Weights::new(s);
    let (win_start, win_end) = match prefilter_window(needle, hay) {
        Some((a, b)) => (a, b),
        None => {
            return 0;
        },
    };
    let ghost x = Problem {
        w,
        needle: needle@,
        hay: hay@,
        start: win_start as int,
        end: win_end as int,
        lanes: lanes as int,
    };
    let mut rows: Vec<Vec<i32>> = Vec::new();
    let mut matched: Vec<Vec<bool>> = Vec::new();
    let mut k: usize = 0;
    while k < n + 1
        invariant
            k <= n + 1,
            n <= 64,
            x.lanes == lanes,
            holds_rows(x, -1, rows@, matched@, k as int),
        decreases n + 1 - k,
    {
        rows.push(blank(lanes));
        matched.push(no_match(lanes, Ghost(x), Ghost(-1), Ghost(k as int)));
        k += 1;
    }
    let mut best: i32 = 0;
    let mut base: usize = win_start;
    let ghost mut t: int = 0;
    while base < win_end
        invariant
            win_start <= base,
            win_start < win_end <= hay@.len(),
            base < win_end + lanes,
            w.wf(),
            w.gap_extend == s.gap_extend_penalty,
            0 < lanes,
            2 * lanes <= usize::MAX,
            hay@.len() + lanes <= usize::MAX,
            reach(1, lanes as int) * s.gap_extend_penalty <= i32::MAX,
            x == (Problem {
                w,
                needle: needle@,
                hay: hay@,
                start: win_start as int,
                end: win_end as int,
                lanes: lanes as int,
            }),
            n == needle@.len(),
            0 < n <= 64,
            0 <= t,
            base == win_start + t * lanes,
            holds_rows(x, t - 1, rows@, matched@, n + 1),
            best == best_of(x, t),
        decreases win_end + lanes - base,
    {
        let (chars, bonuses) = read_chunk(
            &w,
            hay,
            win_start,
            win_end,
            base,
            lanes,
            Ghost(x),
            Ghost(t),
        );
        let (next, next_matched) = score_chunk(
            &w,
            needle,
            &chars,
            &bonuses,
            &rows,
            &matched,
            Ghost(x),
            Ghost(t),
        );
        rows = next;
        matched = next_matched;
        proof {
            lemma_row_limited(x, t, n as int);
            lemma_limits(n as int);
            assert(ints(rows@[n as int]@) == row_of(x, t, n as int));
            assert(rows@[n as int]@.len() == ints(rows@[n as int]@).len());
            assert((t + 1) * lanes == t * lanes + lanes) by (nonlinear_arith);
        }
        best = max(best, largest(&rows[n]));
        base = base + lanes;
        proof {
            t = t + 1;
        }
    }
    proof {
        lemma_chunk_count(win_end - win_start, lanes as int, t);
        lemma_best_limited(x, t);
        lemma_limits(n as int);
        assert(window::is_window(needle@, hay@, win_start as int, win_end as int));
    }
    if hay.len() == n && best > 0 {
        best += w.exact;
    }
    best as u32
}

proof fn lemma_chunk_count(len: int, lanes: int, t: int)
    requires
        0 < lanes,
        0 < len,
        len <= t * lanes < len + lanes,
    ensures
        (len + lanes - 1) / lanes == t,
{
    assert((len + lanes - 1) / lanes == t) by (nonlinear_arith)
        requires
            0 < lanes,
            len <= t * lanes < len + lanes,
    ;
}

} // verus!
