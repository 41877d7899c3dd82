//! What the scores of directories are for.

use crate::score::arith;
use crate::score::context::{Score, ScoringContext};
use crate::score::dirs;
use crate::score::formula;
use crate::score::hits::Hit;
use crate::score::laws;
use crate::types::DirItem;
use vstd::prelude::*;

verus! {

/// A directory, the hit that was scored, and the score that it got.
pub struct ScoredDir<'a> {
    pub dir: DirItem,
    pub path: Seq<u8>,
    pub hit: Hit,
    pub needle: Seq<u8>,
    pub context: ScoringContext<'a>,
    pub score: Score,
}

impl<'a> ScoredDir<'a> {
    /// The score is what [`dirs::score_dir`] gives.
    pub open spec fn holds(self) -> bool {
        &&& self.needle.len() % 65536 > 0
        &&& self.dir.path.filename_offset <= self.path.len()
        &&& self.score == dirs::score_of(
            self.dir,
            self.path,
            self.hit,
            self.needle,
            self.context,
        )
    }

    /// As many bytes as the needle has fit between the start of the last segment
    /// and the end of the hit.
    pub open spec fn starts_in_name(self) -> bool {
        ||| self.dir.path.filename_offset == 0
        ||| self.hit.end_col + 1 >= self.dir.path.filename_offset + self.needle.len() % 65536
    }

    /// The path names the directory by this word, with or without a `/`.
    pub open spec fn is_named(self, word: Seq<u8>) -> bool {
        let last = self.path.skip(self.dir.path.filename_offset as int);
        ||| last == word.push(0x2f)
        ||| last == word && (word.len() == 0 || word.last() != 0x2f)
    }
}

proof fn lemma_lands(x: ScoredDir<'_>)
    requires
        x.holds(),
    ensures
        dirs::lands_in_name(x.hit, x.dir, formula::counted(x.needle.len() as int))
            == x.starts_in_name(),
{
}

proof fn lemma_named(x: ScoredDir<'_>, word: Seq<u8>)
    requires
        x.holds(),
    ensures
        x.is_named(word) ==> dirs::dir_name(x.path, x.dir) == word,
{
    let last = x.path.skip(x.dir.path.filename_offset as int);
    if last == word.push(0x2f) {
        assert(last.drop_last() =~= word);
    }
}

/// What all parts of the score of a directory come to.
pub open spec fn sum_of_parts(s: Score) -> int {
    s.base_score + s.filename_bonus + s.frecency_boost + s.distance_penalty
}

/// A total counts the hit, the name, the use and the distance of a directory
/// once each, as long as none comes near the limits of its type; nothing else
/// counts.
pub proof fn law_total_counts_every_part(x: ScoredDir<'_>)
    requires
        x.holds(),
    ensures
        x.score.base_score == x.hit.score,
        -100_000_000 <= x.score.distance_penalty <= 100_000_000 ==> x.score.total == sum_of_parts(
            x.score,
        ),
        x.score.special_filename_bonus == 0,
        x.score.git_status_boost == 0,
        x.score.git_recency_boost == 0,
        x.score.current_file_penalty == 0,
        x.score.combo_match_boost == 0,
        x.score.path_alignment_bonus == 0,
{
    lemma_total(x);
}

proof fn lemma_total(x: ScoredDir<'_>)
    requires
        x.holds(),
    ensures
        0 <= x.score.filename_bonus <= 26214,
        -21474836 <= x.score.frecency_boost <= 21474836,
        x.score.frecency_boost == formula::use_boost(
            x.hit.score as int,
            x.dir.max_access_frecency as int,
        ),
        x.score.total == held_sum(x.score),
{
    reveal_with_fuel(formula::saturating_sum, 5);
    let s = x.score;
    assert(s.total == formula::saturating_sum(
        seq![
            s.base_score as int,
            s.frecency_boost as int,
            s.distance_penalty as int,
            s.filename_bonus as int,
        ],
        4,
    ));
}

spec fn held_sum(s: Score) -> int {
    let sum = arith::clamped(s.base_score + s.frecency_boost);
    let sum = arith::clamped(sum + s.distance_penalty);
    arith::clamped(sum + s.filename_bonus)
}

/// A directory that is ahead in no part is not ahead in total.
pub proof fn law_better_parts_never_fall_behind(a: ScoredDir<'_>, b: ScoredDir<'_>)
    requires
        a.holds(),
        b.holds(),
        a.score.base_score <= b.score.base_score,
        a.score.filename_bonus <= b.score.filename_bonus,
        a.score.frecency_boost <= b.score.frecency_boost,
        a.score.distance_penalty <= b.score.distance_penalty,
    ensures
        a.score.total <= b.score.total,
{
    lemma_total(a);
    lemma_total(b);
}

/// A needle that is the name of the directory, whatever its case, gains two
/// fifths of what the hit is worth, in steps of two.
pub proof fn law_whole_names_gain(x: ScoredDir<'_>, word: Seq<u8>)
    requires
        x.holds(),
        x.starts_in_name(),
        x.is_named(word),
        laws::is_same_word(x.needle, word),
        x.needle.len() < 65536,
    ensures
        5 * x.score.filename_bonus <= 2 * x.hit.score < 5 * x.score.filename_bonus + 10,
        x.score.filename_bonus % 2 == 0,
        x.score.exact_match,
        x.score.match_type == "exact_dirname",
{
    lemma_lands(x);
    lemma_named(x, word);
    laws::law_case_is_ignored(x.needle, word);
}

/// A hit in the last segment that is not all of it gains a sixth of its worth.
pub proof fn law_hits_in_names_gain(x: ScoredDir<'_>, word: Seq<u8>)
    requires
        x.holds(),
        x.starts_in_name(),
        x.is_named(word),
        !laws::is_same_word(x.needle, word) || x.needle.len() >= 65536,
    ensures
        6 * x.score.filename_bonus <= x.hit.score < 6 * x.score.filename_bonus + 6,
        x.score.exact_match == x.hit.exact,
        x.score.match_type == "fuzzy_dirname",
{
    lemma_lands(x);
    lemma_named(x, word);
    laws::law_case_is_ignored(x.needle, word);
}

/// A hit elsewhere gains nothing by the name.
pub proof fn law_hits_elsewhere_gain_nothing(x: ScoredDir<'_>)
    requires
        x.holds(),
        !x.starts_in_name(),
    ensures
        x.score.filename_bonus == 0,
        x.score.exact_match == x.hit.exact,
        x.score.match_type == (if x.hit.exact {
            "exact_path"
        } else {
            "fuzzy_path"
        }),
{
    lemma_lands(x);
}

/// For hits of equal worth, a directory whose name is the needle gains at least
/// as much by its name as one that the needle is only a part of or misses, and
/// more from a worth of five on.
pub proof fn law_whole_names_gain_most(
    a: ScoredDir<'_>,
    a_word: Seq<u8>,
    b: ScoredDir<'_>,
    b_word: Seq<u8>,
)
    requires
        a.holds(),
        b.holds(),
        a.hit.score == b.hit.score,
        a.starts_in_name(),
        a.is_named(a_word),
        laws::is_same_word(a.needle, a_word),
        a.needle.len() < 65536,
        b.is_named(b_word),
        !laws::is_same_word(b.needle, b_word),
    ensures
        a.score.filename_bonus >= b.score.filename_bonus,
        a.hit.score >= 5 ==> a.score.filename_bonus > b.score.filename_bonus,
{
    law_whole_names_gain(a, a_word);
    if b.starts_in_name() {
        law_hits_in_names_gain(b, b_word);
    } else {
        law_hits_elsewhere_gain_nothing(b);
    }
}

/// Of two directories alike but for their names, the one that the needle names
/// has the higher total from a worth of five on, as long as the distance comes
/// nowhere near the limits of its type.
pub proof fn law_named_directories_rank_first(
    a: ScoredDir<'_>,
    a_word: Seq<u8>,
    b: ScoredDir<'_>,
    b_word: Seq<u8>,
)
    requires
        a.holds(),
        b.holds(),
        a.hit.score == b.hit.score,
        a.hit.score >= 5,
        a.score.frecency_boost == b.score.frecency_boost,
        a.score.distance_penalty == b.score.distance_penalty,
        -100_000_000 <= a.score.distance_penalty <= 100_000_000,
        a.starts_in_name(),
        a.is_named(a_word),
        laws::is_same_word(a.needle, a_word),
        a.needle.len() < 65536,
        b.is_named(b_word),
        !laws::is_same_word(b.needle, b_word),
    ensures
        a.score.total > b.score.total,
{
    law_whole_names_gain_most(a, a_word, b, b_word);
    law_total_counts_every_part(a);
    law_total_counts_every_part(b);
}

/// A hit gains a hundredth of its worth for each point of the directory's
/// frecency, rounded towards zero.
pub proof fn law_frecency_is_in_percent(x: ScoredDir<'_>)
    requires
        x.holds(),
    ensures
        ({
            let worth = x.hit.score * x.dir.max_access_frecency;
            let boost = x.score.frecency_boost;
            &&& worth == 0 ==> boost == 0
            &&& 0 <= worth <= i32::MAX ==> 100 * boost <= worth < 100 * boost + 100
            &&& i32::MIN <= worth <= 0 ==> 100 * boost - 100 < worth <= 100 * boost
            &&& worth > i32::MAX ==> boost == i32::MAX / 100
            &&& worth < i32::MIN ==> boost == i32::MIN / 100 + 1
        }),
{
    lemma_total(x);
}

/// Of two hits that are worth the same, the one in the directory that is used
/// more never gains less.
pub proof fn law_used_directories_gain(a: ScoredDir<'_>, b: ScoredDir<'_>)
    requires
        a.holds(),
        b.holds(),
        a.hit.score == b.hit.score,
        a.dir.max_access_frecency <= b.dir.max_access_frecency,
    ensures
        a.score.frecency_boost <= b.score.frecency_boost,
{
    lemma_total(a);
    lemma_total(b);
    let s = a.hit.score as int;
    let f = a.dir.max_access_frecency as int;
    let g = b.dir.max_access_frecency as int;
    assert(s * f <= s * g) by (nonlinear_arith)
        requires
            0 <= s,
            f <= g,
    ;
}

/// While a file is open, a directory has the penalty that it is listed with; it
/// has none where it is not listed or no file is open.
pub proof fn law_distance_is_the_listed_one(x: ScoredDir<'_>, k: int)
    requires
        x.holds(),
    ensures
        ({
            let listed = x.context.distance.penalties@;
            &&& x.context.current_file is None ==> x.score.distance_penalty == 0
            &&& x.context.current_file is Some && laws::first_listed(listed, x.path, k)
                ==> x.score.distance_penalty == listed[k].1
            &&& laws::not_listed(listed, x.path) ==> x.score.distance_penalty == 0
        }),
{
    laws::law_penalty_is_the_listed_one(*x.context.distance, x.path, k);
}

/// A directory is searched exactly where it is live and meets the constraints of
/// the query, in the order of the table.
pub proof fn law_live_directories_are_searched(
    dirs: Seq<DirItem>,
    context: ScoringContext<'_>,
    n: int,
    i: int,
)
    requires
        0 <= i < n <= dirs.len(),
        context.kept matches Some(marks) ==> n <= marks@.len(),
    ensures
        ({
            let shown = !dirs[i].deleted() && (context.kept matches Some(marks) ==> marks@[i]);
            let found = dirs::live_dirs(dirs, context, n);
            let before = dirs::live_dirs(dirs, context, i).len() as int;
            &&& shown ==> before < found.len() && *found[before] == dirs[i]
            &&& dirs::live_dirs(dirs, context, i + 1).len() == before + if shown {
                1int
            } else {
                0
            }
        }),
    decreases n,
{
    if n - 1 > i {
        law_live_directories_are_searched(dirs, context, n - 1, i);
    }
}

} // verus!
