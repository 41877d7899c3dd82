//! What the weights of a match are for.

use crate::gpu::matcher::Scoring;
use crate::gpu::search;
use crate::prototype::columns;
use crate::prototype::columns::Problem;
use crate::prototype::matcher;
use crate::prototype::matcher::{Kernel, MatcherState, Scorer, SearchPlan};
use crate::prototype::weights;
use crate::prototype::weights::Weights;
use crate::prototype::window;
use vstd::prelude::*;

verus! {

/// Every weight that is sent is the caller's of the same name; the needle is
/// sent byte for byte, up to thirty-two of them, with zeros behind it.
pub proof fn law_weights_are_the_callers(
    state: MatcherState,
    needle: Seq<char>,
    scoring: Scoring,
    use_subgroup: bool,
    plan: SearchPlan,
)
    requires
        plan.params == matcher::params_of(
            matcher::needle_bytes(needle).len() as int,
            state.item_count,
            scoring,
        ),
        plan.needle@ == search::padded(matcher::needle_bytes(needle)),
        plan.scorer == state.scorer_of(use_subgroup),
    ensures
        plan.params.match_score == scoring.match_score,
        plan.params.mismatch_penalty == scoring.mismatch_penalty,
        plan.params.gap_open == scoring.gap_open_penalty,
        plan.params.gap_extend == scoring.gap_extend_penalty,
        plan.params.prefix_bonus == scoring.prefix_bonus,
        plan.params.delimiter_bonus == scoring.delimiter_bonus,
        plan.params.capitalization_bonus == scoring.capitalization_bonus,
        plan.params.matching_case_bonus == scoring.matching_case_bonus,
        plan.params.exact_match_bonus == scoring.exact_match_bonus,
        plan.params.item_count == state.item_count,
        ({
            let all = vstd::utf8::encode_utf8(needle);
            let len = plan.params.needle_len as int;
            &&& plan.needle@.len() == 64
            &&& all.len() <= 32 ==> len == all.len()
            &&& all.len() > 32 ==> len == 32
            &&& forall|i: int| 0 <= i < len ==> #[trigger] plan.needle@[i] == all[i]
            &&& forall|i: int| len <= i < 64 ==> #[trigger] plan.needle@[i] == 0
        }),
        state.kernel == Kernel::ThreadPerItem <==> plan.scorer == Scorer::Item,
        state.kernel != Kernel::ThreadPerItem ==> (plan.scorer == Scorer::Subgroup
            <==> use_subgroup),
{
}

/// A letter is like its other case, and any byte is like itself; nothing else
/// is alike.
pub proof fn law_bytes_alike(a: u8, b: u8)
    ensures
        window::alike(a, b) <==> a == b || (97 <= a <= 122 && a == b + 32) || (65 <= a <= 90 && b
            == a + 32),
        window::alike(a, b) == window::alike(b, a),
{
}

/// Letters, digits and what is beyond ASCII delimit nothing; all else does.
pub proof fn law_delimiters(c: u8)
    ensures
        97 <= c <= 122 || 65 <= c <= 90 || 48 <= c <= 57 || c >= 128 ==> !weights::is_delimiter(c),
        c < 48 || 57 < c < 65 || 90 < c < 97 || 122 < c < 128 ==> weights::is_delimiter(c),
{
}

/// Each bonus is added to what a byte is worth where its reason holds, whatever
/// the others do.
pub proof fn law_bonuses_add_up(
    s: Scoring,
    c: u8,
    after_lower: bool,
    after_delimiter: bool,
    first: bool,
)
    requires
        weights::is_usable(s),
    ensures
        ({
            let w = weights::weights_of(s);
            let got = weights::bonus_of(w, c, after_lower, after_delimiter, first);
            &&& weights::bonus_of(w, c, false, false, false) == s.match_score + s.mismatch_penalty
            &&& got == weights::bonus_of(w, c, after_lower, after_delimiter, false) + if first {
                s.prefix_bonus as int
            } else {
                0
            }
            &&& got == weights::bonus_of(w, c, after_lower, false, first) + if after_delimiter && !(
            c < 48 || 57 < c < 65 || 90 < c < 97 || 122 < c < 128) {
                s.delimiter_bonus as int
            } else {
                0
            }
            &&& got == weights::bonus_of(w, c, false, after_delimiter, first) + if after_lower && 65
                <= c <= 90 {
                s.capitalization_bonus as int
            } else {
                0
            }
        }),
{
}

/// A byte that is like the needle's adds the match score and its bonuses to
/// what the bytes before scored, and the case bonus where it is the same byte.
/// Another byte costs the mismatch penalty, but no score falls below zero.
pub proof fn law_matches_gain_and_mismatches_cost(
    s: Scoring,
    c: u8,
    nc: u8,
    after_lower: bool,
    after_delimiter: bool,
    first: bool,
    before: int,
)
    requires
        weights::is_usable(s),
        0 <= before,
    ensures
        ({
            let w = weights::weights_of(s);
            let bonus = weights::bonus_of(w, c, after_lower, after_delimiter, first);
            let extra = bonus - s.match_score - s.mismatch_penalty;
            let got = weights::cell(w, c, nc, bonus, before, 0, false);
            &&& extra >= 0
            &&& c == nc ==> got == before + s.match_score + extra + s.matching_case_bonus
            &&& c != nc && window::alike(c, nc) ==> got == before + s.match_score + extra
            &&& !window::alike(c, nc) && before >= s.mismatch_penalty ==> got == before
                - s.mismatch_penalty
            &&& !window::alike(c, nc) && before <= s.mismatch_penalty ==> got == 0
        }),
{
}

/// Leaving a needle byte out costs the extension penalty, and the opening
/// penalty in its place right behind a match.
pub proof fn law_left_out_bytes_cost(s: Scoring, c: u8, nc: u8, bonus: int, above: int, matched: bool)
    requires
        weights::is_usable(s),
        !window::alike(c, nc),
        above >= s.gap_open_penalty,
    ensures
        weights::cell(weights::weights_of(s), c, nc, bonus, 0, above, matched) == above
            - if matched {
            s.gap_open_penalty
        } else {
            s.gap_extend_penalty
        },
{
}

/// A gap along the path costs the opening penalty for its first byte behind a
/// match, and the extension penalty for each other byte.
pub proof fn law_gaps_cost(s: Scoring, x: Problem, q: int, p: int, i: int)
    requires
        weights::is_usable(s),
        x.w == weights::weights_of(s),
        x.start <= q < p,
    ensures
        columns::after_gap(x, q, p, i) == columns::bare_cell(x, q, i) - (p - q - 1)
            * s.gap_extend_penalty - if columns::matches_at(x, q, i) {
            s.gap_open_penalty
        } else {
            s.gap_extend_penalty
        },
{
    let e = s.gap_extend_penalty as int;
    assert((p - q) * e == (p - q - 1) * e + e) by (nonlinear_arith);
}

/// A path that the whole needle is gains the bonus for it; no other does, and a
/// path that scores nothing stays at nothing.
pub proof fn law_whole_paths_gain(s: Scoring, needle: Seq<u8>, hay: Seq<u8>, start: int, end: int)
    requires
        weights::is_usable(s),
    ensures
        ({
            let w = weights::weights_of(s);
            let best = columns::best_before(Problem { w, needle, hay, start }, end);
            let got = columns::window_score(w, needle, hay, start, end);
            &&& hay.len() != needle.len() ==> got == best
            &&& hay.len() == needle.len() && best > 0 ==> got == best + s.exact_match_bonus
            &&& best == 0 ==> got == 0
        }),
{
}

/// The score of a window is the best of the cells in which the needle ends.
pub proof fn law_best_cells_win(x: Problem, end: int, p: int)
    requires
        x.start <= p < end,
    ensures
        columns::best_before(x, end) >= columns::full_cell(x, p, x.needle.len() as int),
        columns::best_before(x, end) == 0 || exists|q: int|
            x.start <= q < end && columns::best_before(x, end) == #[trigger] columns::full_cell(
                x,
                q,
                x.needle.len() as int,
            ),
    decreases end - x.start,
{
    if end - 1 > x.start {
        law_best_cells_win(
            x,
            end - 1,
            if p < end - 1 {
                p
            } else {
                end - 2
            },
        );
    } else {
        assert(columns::best_before(x, x.start) == 0);
    }
    if columns::best_before(x, end) == columns::full_cell(x, end - 1, x.needle.len() as int) {
        assert(columns::best_before(x, end) == columns::full_cell(
            x,
            end - 1,
            x.needle.len() as int,
        ));
    }
}

/// Paths in which the bytes of the needle do not occur in order score nothing.
pub proof fn law_paths_without_the_needle_score_nothing(
    w: Weights,
    needle: Seq<u8>,
    hay: Seq<u8>,
    score: int,
)
    requires
        columns::is_score(w, needle, hay, score),
        needle.len() == 0 || hay.len() < needle.len() || exists|k: int|
            #![trigger needle[k]]
            0 <= k < needle.len() && forall|j: int|
                0 <= j < hay.len() ==> !window::alike(#[trigger] hay[j], needle[k]),
    ensures
        score == 0,
{
    if needle.len() > 0 && window::occurs(needle, hay) {
        let at = choose|at: Seq<int>| window::found_at(needle, hay, at);
        if hay.len() < needle.len() {
            lemma_places(needle, hay, at, needle.len() - 1);
        } else {
            let k = choose|k: int|
                #![trigger needle[k]]
                0 <= k < needle.len() && forall|j: int|
                    0 <= j < hay.len() ==> !window::alike(#[trigger] hay[j], needle[k]);
            assert(window::alike(hay[at[k]], needle[k]));
        }
    }
}

proof fn lemma_places(needle: Seq<u8>, hay: Seq<u8>, at: Seq<int>, k: int)
    requires
        window::found_at(needle, hay, at),
        0 <= k < needle.len(),
    ensures
        k <= at[k] < hay.len(),
    decreases k,
{
    if k > 0 {
        lemma_places(needle, hay, at, k - 1);
        assert(at[k - 1] < at[k]);
    }
}

} // verus!
