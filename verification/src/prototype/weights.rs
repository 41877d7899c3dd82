//! Weights of a match, as the shaders use them.

use crate::gpu::matcher::Scoring;
use crate::prototype::window;
use vstd::prelude::*;

verus! {

/// Weights prepared for scoring.
#[derive(Clone, Copy, Debug)]
pub struct Weights {
    pub match_score: i32,
    pub mismatch: i32,
    pub gap_open: i32,
    pub gap_extend: i32,
    pub matching_case: i32,
    pub capitalization: i32,
    pub delimiter: i32,
    pub prefix: i32,
    pub exact: i32,
}

/// Most that one more needle byte can add to a score.
pub open spec fn step_limit() -> int {
    327675
}

/// The sums and differences of weights that are needed can be formed.
pub open spec fn is_usable(s: Scoring) -> bool {
    s.match_score + s.mismatch_penalty <= 65535 && s.gap_extend_penalty <= s.gap_open_penalty
}

pub open spec fn weights_of(s: Scoring) -> Weights {
    Weights {
        match_score: (s.match_score + s.mismatch_penalty) as i32,
        mismatch: s.mismatch_penalty as i32,
        gap_open: (s.gap_open_penalty - s.gap_extend_penalty) as i32,
        gap_extend: s.gap_extend_penalty as i32,
        matching_case: s.matching_case_bonus as i32,
        capitalization: s.capitalization_bonus as i32,
        delimiter: s.delimiter_bonus as i32,
        prefix: s.prefix_bonus as i32,
        exact: s.exact_match_bonus as i32,
    }
}

impl Weights {
    pub open spec fn wf(self) -> bool {
        &&& 0 <= self.match_score <= 65535
        &&& 0 <= self.mismatch <= 65535
        &&& 0 <= self.gap_open <= 65535
        &&& 0 <= self.gap_extend <= 65535
        &&& 0 <= self.matching_case <= 65535
        &&& 0 <= self.capitalization <= 65535
        &&& 0 <= self.delimiter <= 65535
        &&& 0 <= self.prefix <= 65535
        &&& 0 <= self.exact <= 65535
    }

    pub fn new(s: &Scoring) -> (w: Weights)
        requires
            is_usable(*s),
        ensures
            w == weights_of(*s),
            w.wf(),
    {
        Weights {
            match_score: (s.match_score + s.mismatch_penalty) as i32,
            mismatch: s.mismatch_penalty as i32,
            gap_open: (s.gap_open_penalty - s.gap_extend_penalty) as i32,
            gap_extend: s.gap_extend_penalty as i32,
            matching_case: s.matching_case_bonus as i32,
            capitalization: s.capitalization_bonus as i32,
            delimiter: s.delimiter_bonus as i32,
            prefix: s.prefix_bonus as i32,
            exact: s.exact_match_bonus as i32,
        }
    }
}

/// Neither a letter, nor a digit, nor part of a character beyond ASCII.
pub open spec fn is_delimiter(c: u8) -> bool {
    !(window::is_lower(c) || window::is_upper(c) || window::is_digit(c) || c > 127)
}

pub fn delimits(c: u8) -> (r: bool)
    ensures
        r == is_delimiter(c),
{
    !((97 <= c && c <= 122) || (65 <= c && c <= 90) || (48 <= c && c <= 57) || c > 127)
}

/// What matching a byte is worth: more after a delimiter, for a capital after
/// a small letter, and at the very start.
pub open spec fn bonus_of(
    w: Weights,
    c: u8,
    after_lower: bool,
    after_delimiter: bool,
    first: bool,
) -> int {
    w.match_score + (if window::is_upper(c) && after_lower {
        w.capitalization as int
    } else {
        0
    }) + (if after_delimiter && !is_delimiter(c) {
        w.delimiter as int
    } else {
        0
    }) + (if first {
        w.prefix as int
    } else {
        0
    })
}

pub fn bonus(w: &Weights, c: u8, after_lower: bool, after_delimiter: bool, first: bool) -> (r: i32)
    requires
        w.wf(),
    ensures
        r == bonus_of(*w, c, after_lower, after_delimiter, first),
        0 <= r <= 4 * 65535,
{
    let mut b: i32 = w.match_score;
    if 65 <= c && c <= 90 && after_lower {
        b += w.capitalization;
    }
    if after_delimiter && !delimits(c) {
        b += w.delimiter;
    }
    if first {
        b += w.prefix;
    }
    b
}

pub open spec fn larger(a: int, b: int) -> int {
    if a > b {
        a
    } else {
        b
    }
}

pub fn max(a: i32, b: i32) -> (r: i32)
    ensures
        r == larger(a as int, b as int),
{
    if a > b {
        a
    } else {
        b
    }
}

/// Score of a cell before gaps along the path: one more byte of each, or a
/// needle byte left out.
pub open spec fn cell(
    w: Weights,
    c: u8,
    nc: u8,
    bonus: int,
    diagonal: int,
    above: int,
    above_matched: bool,
) -> int {
    let d = larger(
        diagonal + (if window::alike(c, nc) {
            bonus
        } else {
            0
        }) - w.mismatch,
        0,
    ) + (if c == nc {
        w.matching_case as int
    } else {
        0
    });
    let u = above - w.gap_extend - (if above_matched {
        w.gap_open as int
    } else {
        0
    });
    larger(d, larger(u, 0))
}

pub fn score_cell(
    w: &Weights,
    c: u8,
    nc: u8,
    bonus: i32,
    diagonal: i32,
    above: i32,
    above_matched: bool,
) -> (r: i32)
    requires
        w.wf(),
        0 <= bonus <= 4 * 65535,
        0 <= diagonal <= 64 * step_limit(),
        0 <= above <= 64 * step_limit(),
    ensures
        r == cell(*w, c, nc, bonus as int, diagonal as int, above as int, above_matched),
        0 <= r,
        r <= larger(diagonal + step_limit(), above as int),
{
    let exact = c == nc;
    let m = exact || c == window::flip_case(nc);
    let mut d: i32 = diagonal;
    if m {
        d += bonus;
    }
    d = max(d - w.mismatch, 0);
    if exact {
        d += w.matching_case;
    }
    let mut u: i32 = above - w.gap_extend;
    if above_matched {
        u -= w.gap_open;
    }
    max(d, max(u, 0))
}

} // verus!
