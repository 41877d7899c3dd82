//! What scores are for: which files and directories they put first.

use crate::score::arith;
use crate::score::context;
use crate::score::context::{Score, ScoringContext};
use crate::score::formula;
use crate::score::hits::Hit;
use crate::types::FileItem;
use vstd::prelude::*;

verus! {

/// A file, the hit that was scored, and the score that it got.
pub struct ScoredFile<'a> {
    pub file: FileItem,
    pub path: Seq<u8>,
    pub hit: Hit,
    pub by_name: Option<Hit>,
    pub needle: Seq<u8>,
    pub has_separator: bool,
    pub context: ScoringContext<'a>,
    pub score: Score,
}

impl<'a> ScoredFile<'a> {
    /// The score is what [`formula::score_match`] gives.
    pub open spec fn holds(self) -> bool {
        &&& self.needle.len() % 65536 > 0
        &&& self.file.path.filename_offset <= self.path.len()
        &&& self.by_name is Some ==> !self.starts_in_name()
        &&& formula::combo_fits(self.context)
        &&& self.score == formula::score_of(
            self.file,
            self.path,
            self.hit,
            self.by_name,
            self.needle,
            self.has_separator,
            self.context,
        )
    }

    /// The file is open right now.
    pub open spec fn is_open(self) -> bool {
        self.context.current_file matches Some(current) && vstd::utf8::encode_utf8(current@)
            == self.path
    }

    /// As many bytes as the needle has fit between the start of the file's name
    /// and the end of the hit.
    pub open spec fn starts_in_name(self) -> bool {
        ||| self.file.path.filename_offset == 0
        ||| self.hit.end_col + 1 >= self.file.path.filename_offset + self.needle.len() % 65536
    }

    pub open spec fn name(self) -> Seq<u8> {
        self.path.subrange(self.file.path.filename_offset as int, self.path.len() as int)
    }

    /// The hit is the whole name of the file, but for case.
    pub open spec fn is_name(self) -> bool {
        if self.starts_in_name() {
            is_same_word(self.needle, self.name()) && self.needle.len() < 65536
        } else {
            self.by_name matches Some(found) && found.exact
        }
    }

    pub open spec fn frecency(self) -> int {
        self.file.access_frecency_score + self.file.modification_frecency_score
    }
}

/// `a` is the other case of the letter `b`.
pub open spec fn is_other_case(a: u8, b: u8) -> bool {
    ||| 65 <= a <= 90 && b == a + 32
    ||| 65 <= b <= 90 && a == b + 32
}

/// The bytes are the same, but for the case of letters.
pub open spec fn is_same_word(a: Seq<u8>, b: Seq<u8>) -> bool {
    &&& a.len() == b.len()
    &&& forall|i: int| 0 <= i < a.len() ==> (#[trigger] a[i]) == b[i] || is_other_case(a[i], b[i])
}

/// Words match whatever the case of their letters, and only then.
pub proof fn law_case_is_ignored(a: Seq<u8>, b: Seq<u8>)
    ensures
        formula::same_folded(a, b) <==> is_same_word(a, b),
{
    if formula::same_folded(a, b) {
        assert forall|i: int| 0 <= i < a.len() implies (#[trigger] a[i]) == b[i] || is_other_case(
            a[i],
            b[i],
        ) by {
            assert(formula::folded(a[i]) == formula::folded(b[i]));
        }
    }
    if is_same_word(a, b) {
        assert forall|i: int| 0 <= i < a.len() implies formula::folded(#[trigger] a[i])
            == formula::folded(b[i]) by {}
    }
}

proof fn lemma_lands(x: ScoredFile<'_>)
    requires
        x.needle.len() % 65536 > 0,
    ensures
        formula::lands_in_name(x.hit, x.file, formula::counted(x.needle.len() as int))
            == x.starts_in_name(),
{
}

proof fn lemma_is_name(x: ScoredFile<'_>)
    requires
        x.holds(),
    ensures
        formula::is_exact_name(x.file, x.path, x.needle, x.hit, x.by_name) == x.is_name(),
{
    lemma_lands(x);
    law_case_is_ignored(x.needle, x.name());
    assert(formula::name_of(x.path, x.file) =~= x.name());
}

proof fn lemma_alignment_fits(path: Seq<u8>, needle: Seq<u8>, hit: Hit)
    requires
        needle.len() > 0,
    ensures
        0 <= formula::alignment_bonus(path, needle, hit) <= hit.score,
{
    law_common_ends(needle, path);
    let common = formula::common_suffix(needle, path) as int;
    let n = needle.len() as int;
    let coverage = common * 100 / n;
    let score = hit.score as int;
    assert(0 <= coverage <= 100) by (nonlinear_arith)
        requires
            coverage == (common * 100) / n,
            0 <= common <= n,
            n > 0,
    ;
    assert(0 <= score * coverage <= score * 100) by (nonlinear_arith)
        requires
            0 <= score,
            0 <= coverage <= 100,
    ;
}

proof fn lemma_bonus_fits(x: ScoredFile<'_>)
    requires
        x.holds(),
    ensures
        0 <= formula::filename_bonus(x.file, x.path, x.needle, x.hit, x.by_name) <= 26214,
{
    let base = x.hit.score as int;
    let n = formula::counted(x.needle.len() as int);
    if let Some(found) = x.by_name {
        lemma_quality(base, found.score as int, n);
    }
}

/// A share of a bonus by quality lies between nothing and the bonus.
proof fn lemma_quality(base: int, score: int, n: int)
    requires
        0 <= base,
        0 <= score,
        n > 0,
    ensures
        ({
            let most = if base / 6 <= 30 {
                base / 6
            } else {
                30
            };
            let quality = if score <= n * 16 {
                score
            } else {
                n * 16
            };
            0 <= most * quality / (n * 16) <= most
        }),
{
    let most = if base / 6 <= 30 {
        base / 6
    } else {
        30
    };
    let full = n * 16;
    let quality = if score <= full {
        score
    } else {
        full
    };
    assert(0 <= (most * quality) / full <= most) by (nonlinear_arith)
        requires
            0 <= most,
            0 <= quality <= full,
            full > 0,
    ;
}

/// The parts of a score are whole numbers that its fields can hold, and the
/// total is their sum, held at the limits of its type at each step.
proof fn lemma_parts(x: ScoredFile<'_>)
    requires
        x.holds(),
    ensures
        x.score.base_score == x.hit.score,
        x.score.filename_bonus == formula::filename_bonus(
            x.file,
            x.path,
            x.needle,
            x.hit,
            x.by_name,
        ),
        0 <= x.score.filename_bonus <= 26214,
        x.score.frecency_boost == formula::use_boost(x.hit.score as int, x.frecency()),
        x.score.git_status_boost == (if x.file.git_modified {
            x.hit.score * 15 / 100
        } else {
            0
        }),
        -16384 <= x.score.current_file_penalty <= 16384,
        x.score.combo_match_boost == formula::combo_boost(x.path, x.context),
        x.score.path_alignment_bonus == (if x.has_separator {
            formula::alignment_bonus(x.path, x.needle, x.hit)
        } else {
            0
        }),
        0 <= x.score.path_alignment_bonus <= x.hit.score,
        x.score.total == held_sum(x.score),
{
    lemma_bonus_fits(x);
    lemma_alignment_fits(x.path, x.needle, x.hit);
    let s = x.score;
    let parts = seq![
        s.base_score as int,
        s.frecency_boost as int,
        s.git_status_boost as int,
        s.git_recency_boost as int,
        s.distance_penalty as int,
        s.filename_bonus as int,
        s.current_file_penalty as int,
        s.combo_match_boost as int,
        s.path_alignment_bonus as int,
    ];
    reveal_with_fuel(formula::saturating_sum, 10);
    assert(s.total == formula::saturating_sum(parts, 9));
}

/// The sum of the parts of a score, held at the limits of its type after each.
spec fn held_sum(s: Score) -> int {
    let sum = arith::clamped(s.base_score + s.frecency_boost);
    let sum = arith::clamped(sum + s.git_status_boost);
    let sum = arith::clamped(sum + s.git_recency_boost);
    let sum = arith::clamped(sum + s.distance_penalty);
    let sum = arith::clamped(sum + s.filename_bonus);
    let sum = arith::clamped(sum + s.current_file_penalty);
    let sum = arith::clamped(sum + s.combo_match_boost);
    arith::clamped(sum + s.path_alignment_bonus)
}

/// What all parts of a score come to.
pub open spec fn sum_of_parts(s: Score) -> int {
    s.base_score + s.filename_bonus + s.frecency_boost + s.git_status_boost + s.git_recency_boost
        + s.distance_penalty + s.current_file_penalty + s.combo_match_boost
        + s.path_alignment_bonus
}

/// No part comes near the limits of its type.
pub open spec fn is_moderate(s: Score) -> bool {
    &&& -100_000_000 <= s.filename_bonus <= 100_000_000
    &&& -100_000_000 <= s.frecency_boost <= 100_000_000
    &&& -100_000_000 <= s.git_status_boost <= 100_000_000
    &&& -100_000_000 <= s.git_recency_boost <= 100_000_000
    &&& -100_000_000 <= s.distance_penalty <= 100_000_000
    &&& -100_000_000 <= s.current_file_penalty <= 100_000_000
    &&& -100_000_000 <= s.combo_match_boost <= 100_000_000
    &&& -100_000_000 <= s.path_alignment_bonus <= 100_000_000
}

/// A total counts every part once, and nothing else, as long as none comes near
/// the limits of its type.
pub proof fn law_total_counts_every_part(x: ScoredFile<'_>)
    requires
        x.holds(),
        is_moderate(x.score),
    ensures
        x.score.base_score == x.hit.score,
        x.score.total == sum_of_parts(x.score),
{
    lemma_parts(x);
}

/// No part of `a` is higher than that of `b`.
pub open spec fn no_part_higher(a: Score, b: Score) -> bool {
    &&& a.base_score <= b.base_score
    &&& a.filename_bonus <= b.filename_bonus
    &&& a.frecency_boost <= b.frecency_boost
    &&& a.git_status_boost <= b.git_status_boost
    &&& a.git_recency_boost <= b.git_recency_boost
    &&& a.distance_penalty <= b.distance_penalty
    &&& a.current_file_penalty <= b.current_file_penalty
    &&& a.combo_match_boost <= b.combo_match_boost
    &&& a.path_alignment_bonus <= b.path_alignment_bonus
}

/// A file that is ahead in no part is not ahead in total.
pub proof fn law_better_parts_never_fall_behind(a: ScoredFile<'_>, b: ScoredFile<'_>)
    requires
        a.holds(),
        b.holds(),
        no_part_higher(a.score, b.score),
    ensures
        a.score.total <= b.score.total,
{
    lemma_parts(a);
    lemma_parts(b);
}

/// The open file is demoted by a quarter of what its hit is worth; no other
/// file is.
pub proof fn law_open_file_is_demoted(x: ScoredFile<'_>)
    requires
        x.holds(),
    ensures
        x.score.current_file_penalty <= 0,
        !x.is_open() ==> x.score.current_file_penalty == 0,
        x.is_open() ==> -x.hit.score <= 4 * x.score.current_file_penalty < 4 - x.hit.score,
        x.is_open() && x.score.base_score >= 4 ==> x.score.current_file_penalty < 0,
{
}

/// Of two files alike but for being open, the open one never has the higher
/// total; it has the lower one from a base score of four on, where no part comes
/// near the limits of its type.
pub proof fn law_open_file_ranks_no_higher(a: ScoredFile<'_>, b: ScoredFile<'_>)
    requires
        a.holds(),
        b.holds(),
        a.is_open(),
        !b.is_open(),
        a.score == (Score {
            total: a.score.total,
            current_file_penalty: a.score.current_file_penalty,
            ..b.score
        }),
    ensures
        a.score.total <= b.score.total,
        is_moderate(a.score) && a.hit.score >= 4 ==> a.score.total < b.score.total,
{
    law_open_file_is_demoted(a);
    law_open_file_is_demoted(b);
    law_better_parts_never_fall_behind(a, b);
    lemma_parts(a);
    lemma_parts(b);
}

/// A hit in a file gains a hundredth of its worth for each point of the file's
/// frecency, rounded towards zero; files that are not used gain nothing.
pub proof fn law_frecency_is_in_percent(x: ScoredFile<'_>)
    requires
        x.holds(),
    ensures
        ({
            let worth = x.hit.score * (x.file.access_frecency_score
                + x.file.modification_frecency_score);
            let boost = x.score.frecency_boost;
            &&& worth == 0 ==> boost == 0
            &&& 0 <= worth <= i32::MAX ==> 100 * boost <= worth < 100 * boost + 100
            &&& i32::MIN <= worth <= 0 ==> 100 * boost - 100 < worth <= 100 * boost
            &&& worth > i32::MAX ==> boost == i32::MAX / 100
            &&& worth < i32::MIN ==> boost == i32::MIN / 100 + 1
        }),
{
    lemma_parts(x);
}

/// Of two hits that are worth the same, the one in the file that is used more
/// never gains less.
pub proof fn law_used_files_gain(a: ScoredFile<'_>, b: ScoredFile<'_>)
    requires
        a.holds(),
        b.holds(),
        a.hit.score == b.hit.score,
        a.file.access_frecency_score + a.file.modification_frecency_score
            <= b.file.access_frecency_score + b.file.modification_frecency_score,
    ensures
        a.score.frecency_boost <= b.score.frecency_boost,
{
    lemma_parts(a);
    lemma_parts(b);
    let s = a.hit.score as int;
    let f = a.frecency();
    let g = b.frecency();
    assert(s * f <= s * g) by (nonlinear_arith)
        requires
            0 <= s,
            f <= g,
    ;
}

/// Changed files gain fifteen percent; every file gains its recency in git.
pub proof fn law_git_boosts(x: ScoredFile<'_>)
    requires
        x.holds(),
    ensures
        !x.file.git_modified ==> x.score.git_status_boost == 0,
        x.file.git_modified ==> 100 * x.score.git_status_boost <= 15 * x.hit.score < 100
            * x.score.git_status_boost + 100,
        x.score.git_recency_boost == x.file.git_recency_score,
{
}

/// `entries` list this directory first at `k`.
pub open spec fn first_listed(entries: Seq<(Vec<u8>, i32)>, dir: Seq<u8>, k: int) -> bool {
    &&& 0 <= k < entries.len()
    &&& entries[k].0@ == dir
    &&& forall|j: int| 0 <= j < k ==> (#[trigger] entries[j]).0@ != dir
}

pub open spec fn not_listed(entries: Seq<(Vec<u8>, i32)>, dir: Seq<u8>) -> bool {
    forall|j: int| 0 <= j < entries.len() ==> (#[trigger] entries[j]).0@ != dir
}

proof fn lemma_listed_penalty(entries: Seq<(Vec<u8>, i32)>, dir: Seq<u8>, n: int, k: int)
    requires
        0 <= n <= entries.len(),
        forall|j: int| 0 <= j < k && j < entries.len() ==> (#[trigger] entries[j]).0@ != dir,
        k >= entries.len() - n,
        k >= entries.len() || entries[k].0@ == dir,
    ensures
        context::listed_penalty(entries, dir, n) == if k < entries.len() {
            entries[k].1
        } else {
            0
        },
    decreases n,
{
    if n > 0 && entries[entries.len() - n].0@ != dir {
        lemma_listed_penalty(entries, dir, n - 1, k);
    }
}

/// A directory has the penalty that it is listed with first, and none where it
/// is not listed.
pub proof fn law_penalty_is_the_listed_one(
    distance: context::DirectoryDistance,
    dir: Seq<u8>,
    k: int,
)
    ensures
        first_listed(distance.penalties@, dir, k) ==> distance.penalty_of(dir)
            == distance.penalties@[k].1,
        not_listed(distance.penalties@, dir) ==> distance.penalty_of(dir) == 0,
{
    let entries = distance.penalties@;
    if first_listed(entries, dir, k) {
        lemma_listed_penalty(entries, dir, entries.len() as int, k);
    }
    if not_listed(entries, dir) {
        lemma_listed_penalty(entries, dir, entries.len() as int, entries.len() as int);
    }
}

/// While a file is open, others have the penalty of their directory; else there
/// is none.
pub proof fn law_distance_is_that_of_the_directory(x: ScoredFile<'_>, k: int)
    requires
        x.holds(),
    ensures
        ({
            let dir = x.path.take(x.file.path.filename_offset as int);
            let listed = x.context.distance.penalties@;
            &&& x.context.current_file is None ==> x.score.distance_penalty == 0
            &&& x.context.current_file is Some && first_listed(listed, dir, k)
                ==> x.score.distance_penalty == listed[k].1
            &&& not_listed(listed, dir) ==> x.score.distance_penalty == 0
        }),
{
    law_penalty_is_the_listed_one(
        *x.context.distance,
        x.path.take(x.file.path.filename_offset as int),
        k,
    );
}

/// A needle that is the file's whole name gains two fifths of what the hit is
/// worth, in steps of two.
pub proof fn law_whole_names_gain(x: ScoredFile<'_>)
    requires
        x.holds(),
        x.is_name(),
    ensures
        5 * x.score.filename_bonus <= 2 * x.hit.score < 5 * x.score.filename_bonus + 10,
        x.score.filename_bonus % 2 == 0,
        x.score.exact_match,
        x.score.match_type == "exact_filename",
        x.score.special_filename_bonus == 0,
{
    lemma_is_name(x);
    lemma_lands(x);
    lemma_parts(x);
}

/// A hit in the name that is not all of it gains a sixth of its worth, and
/// thirty at most.
pub proof fn law_hits_in_names_gain(x: ScoredFile<'_>)
    requires
        x.holds(),
        !x.is_name(),
        x.starts_in_name(),
    ensures
        0 <= 6 * x.score.filename_bonus <= x.hit.score,
        x.score.filename_bonus <= 30,
        x.score.filename_bonus == 30 || x.hit.score < 6 * x.score.filename_bonus + 6,
        x.score.exact_match == x.hit.exact,
        x.score.match_type == "fuzzy_filename",
        x.score.special_filename_bonus == 0,
{
    lemma_is_name(x);
    lemma_lands(x);
    lemma_parts(x);
}

/// For hits of equal worth, a file whose name is the needle gains at least as
/// much by its name as any other, and more from a worth of five on.
pub proof fn law_whole_names_gain_most(a: ScoredFile<'_>, b: ScoredFile<'_>)
    requires
        a.holds(),
        b.holds(),
        a.hit.score == b.hit.score,
        a.is_name(),
        !b.is_name(),
    ensures
        a.score.filename_bonus >= b.score.filename_bonus,
        a.hit.score >= 5 ==> a.score.filename_bonus > b.score.filename_bonus,
{
    lemma_is_name(a);
    lemma_is_name(b);
    lemma_parts(a);
    lemma_parts(b);
    if let Some(found) = b.by_name {
        lemma_quality(
            b.hit.score as int,
            found.score as int,
            formula::counted(b.needle.len() as int),
        );
    }
}

/// A name that was matched by itself alone gains what a hit in it would, as far
/// as its own score reaches the sixteen points that each byte can have.
pub proof fn law_names_by_themselves_gain_by_quality(a: ScoredFile<'_>, b: ScoredFile<'_>)
    requires
        a.holds(),
        b.holds(),
        a.hit.score == b.hit.score,
        a.needle.len() == b.needle.len(),
        !a.is_name(),
        !b.is_name(),
        a.by_name is Some,
    ensures
        0 <= 6 * a.score.filename_bonus <= a.hit.score,
        a.score.filename_bonus <= 30,
        a.score.match_type == "fuzzy_filename",
        a.by_name->0.score >= 16 * (a.needle.len() % 65536) && b.starts_in_name()
            ==> a.score.filename_bonus == b.score.filename_bonus,
        a.by_name->0.score == 0 ==> a.score.filename_bonus == 0,
        b.by_name matches Some(other) && a.by_name->0.score <= other.score
            ==> a.score.filename_bonus <= b.score.filename_bonus,
{
    lemma_is_name(a);
    lemma_is_name(b);
    lemma_lands(a);
    lemma_lands(b);
    lemma_parts(a);
    lemma_parts(b);
    let base = a.hit.score as int;
    let n = formula::counted(a.needle.len() as int);
    let found = a.by_name->0;
    lemma_quality(base, found.score as int, n);
    let most = if base / 6 <= 30 {
        base / 6
    } else {
        30
    };
    let full = n * 16;
    let p = if found.score <= full {
        found.score as int
    } else {
        full
    };
    assert((most * full) / full == most) by (nonlinear_arith)
        requires
            full > 0,
    ;
    if let Some(other) = b.by_name {
        let q = if other.score <= full {
            other.score as int
        } else {
            full
        };
        if p <= q {
            assert((most * p) / full <= (most * q) / full) by (nonlinear_arith)
                requires
                    0 <= most,
                    0 <= p <= q,
                    full > 0,
            ;
        }
    }
}

/// A name that was matched by itself alone gains as much of what a hit in it
/// would as its score is of the sixteen points for each byte.
pub proof fn law_quality_is_a_share(x: ScoredFile<'_>)
    requires
        x.holds(),
        !x.is_name(),
        x.by_name is Some,
        x.by_name->0.score <= 16 * (x.needle.len() % 65536),
    ensures
        ({
            let full = 16 * (x.needle.len() % 65536);
            let most = if x.hit.score < 186 {
                x.hit.score / 6
            } else {
                30
            };
            let got = x.score.filename_bonus;
            full * got <= most * x.by_name->0.score < full * got + full
        }),
{
    lemma_is_name(x);
    lemma_lands(x);
    lemma_parts(x);
    let n = formula::counted(x.needle.len() as int);
    let full = n * 16;
    let base = x.hit.score as int;
    let most = if base / 6 <= 30 {
        base / 6
    } else {
        30
    };
    let a = most * x.by_name->0.score;
    assert(full * (a / full) <= a < full * (a / full) + full) by (nonlinear_arith)
        requires
            full > 0,
    ;
}

/// A hit outside of the name gains nothing by it, but for a twentieth where the
/// file stands for its directory.
pub proof fn law_hits_elsewhere_gain_little(x: ScoredFile<'_>)
    requires
        x.holds(),
        !x.starts_in_name(),
        x.by_name is None,
    ensures
        x.score.special_filename_bonus == x.score.filename_bonus,
        x.score.filename_bonus == 0 || formula::is_special_name(x.name()),
        formula::is_special_name(x.name()) && 5 <= x.name().len() <= 11 ==> 20
            * x.score.filename_bonus <= x.hit.score < 20 * x.score.filename_bonus + 20,
        x.score.exact_match == x.hit.exact,
        x.score.match_type == (if x.hit.exact {
            "exact_path"
        } else {
            "fuzzy_path"
        }),
{
    lemma_is_name(x);
    lemma_lands(x);
    lemma_parts(x);
    assert(formula::name_of(x.path, x.file) =~= x.name());
}

/// The names of files that stand for their directory: modules and crates, entry
/// points, and indices, each with the endings of its languages.
pub proof fn law_files_that_stand_for_their_directory(name: Seq<u8>)
    ensures
        formula::is_special_name(name) <==> exists|text: &str| #[trigger]
            vstd::utf8::encode_utf8(text@) == name && {
                ||| text@ == "mod.rs"@ || text@ == "lib.rs"@
                ||| text@ == "main.rs"@ || text@ == "main.go"@ || text@ == "main.c"@ || text@
                    == "main.rb"@
                ||| text@ == "__init__.py"@ || text@ == "__main__.py"@
                ||| text@ == "index.js"@ || text@ == "index.jsx"@ || text@ == "index.mjs"@ || text@
                    == "index.cjs"@
                ||| text@ == "index.ts"@ || text@ == "index.tsx"@ || text@ == "index.vue"@
                ||| text@ == "index.php"@ || text@ == "index.rb"@
            },
{
    let all = seq![
        "mod.rs",
        "lib.rs",
        "main.rs",
        "main.go",
        "main.c",
        "main.rb",
        "__init__.py",
        "__main__.py",
        "index.js",
        "index.jsx",
        "index.mjs",
        "index.cjs",
        "index.ts",
        "index.tsx",
        "index.vue",
        "index.php",
        "index.rb",
    ];
    if formula::is_special_name(name) {
        let k = choose|k: int|
            0 <= k < all.len() && vstd::utf8::encode_utf8((#[trigger] all[k])@) == name;
        assert(vstd::utf8::encode_utf8(all[0]@) == name || vstd::utf8::encode_utf8(all[1]@) == name
            || vstd::utf8::encode_utf8(all[2]@) == name || vstd::utf8::encode_utf8(all[3]@) == name
            || vstd::utf8::encode_utf8(all[4]@) == name || vstd::utf8::encode_utf8(all[5]@) == name
            || vstd::utf8::encode_utf8(all[6]@) == name || vstd::utf8::encode_utf8(all[7]@) == name
            || vstd::utf8::encode_utf8(all[8]@) == name || vstd::utf8::encode_utf8(all[9]@) == name
            || vstd::utf8::encode_utf8(all[10]@) == name || vstd::utf8::encode_utf8(all[11]@)
            == name || vstd::utf8::encode_utf8(all[12]@) == name || vstd::utf8::encode_utf8(
            all[13]@,
        ) == name || vstd::utf8::encode_utf8(all[14]@) == name || vstd::utf8::encode_utf8(all[15]@)
            == name || vstd::utf8::encode_utf8(all[16]@) == name);
        assert(vstd::utf8::encode_utf8(all[k]@) == name);
    }
}

/// Only the file that was opened from the same query before is boosted: its
/// path ends the recorded one.
pub proof fn law_only_repeated_files_are_boosted(x: ScoredFile<'_>)
    requires
        x.holds(),
        x.score.combo_match_boost != 0,
    ensures
        x.context.last_same_query_match matches Some(last) && exists|front: Seq<u8>|
            vstd::utf8::encode_utf8(last.file_path@) == #[trigger] (front + x.path),
{
    lemma_parts(x);
    let last = x.context.last_same_query_match->0;
    let text = vstd::utf8::encode_utf8(last.file_path@);
    let front = text.take(text.len() - x.path.len());
    assert(text =~= front + x.path);
}

/// The file that was opened from the same query before gains the multiplier for
/// each time, once there were enough of them; five for each before, and a
/// thousand where none are asked for.
pub proof fn law_repeated_files_gain(x: ScoredFile<'_>, front: Seq<u8>)
    requires
        x.holds(),
        x.context.last_same_query_match is Some,
        vstd::utf8::encode_utf8(x.context.last_same_query_match->0.file_path@) == front + x.path,
    ensures
        ({
            let count = x.context.last_same_query_match->0.open_count;
            let boost = x.score.combo_match_boost;
            let enough = x.context.min_combo_count;
            // Beyond the largest signed number, counts start over from the lowest.
            let times = if count < 0x8000_0000 {
                count as int
            } else {
                count - 0x1_0000_0000
            };
            &&& enough == 0 ==> boost == 1000
            &&& 0 < enough <= count ==> boost == times * x.context.combo_boost_score_multiplier
            &&& count < enough ==> boost == 5 * times
        }),
{
    lemma_parts(x);
    let text = front + x.path;
    assert(text.skip(text.len() - x.path.len()) =~= x.path);
}

/// The common end of two texts: so many bytes match from the end, but for case,
/// and no more.
pub proof fn law_common_ends(a: Seq<u8>, b: Seq<u8>)
    ensures
        ({
            let k = formula::common_suffix(a, b) as int;
            &&& k <= a.len()
            &&& k <= b.len()
            &&& is_same_word(a.skip(a.len() - k), b.skip(b.len() - k))
            &&& k < a.len() && k < b.len() ==> !is_same_word(
                a.skip(a.len() - k - 1),
                b.skip(b.len() - k - 1),
            )
        }),
    decreases a.len(),
{
    let k = formula::common_suffix(a, b) as int;
    if a.len() > 0 && b.len() > 0 {
        if formula::folded(a.last()) == formula::folded(b.last()) {
            let x = a.drop_last();
            let y = b.drop_last();
            law_common_ends(x, y);
            let s = a.skip(a.len() - k);
            let t = b.skip(b.len() - k);
            let u = x.skip(x.len() - (k - 1));
            let v = y.skip(y.len() - (k - 1));
            assert forall|i: int| 0 <= i < s.len() implies (#[trigger] s[i]) == t[i]
                || is_other_case(s[i], t[i]) by {
                if i < k - 1 {
                    assert(u[i] == s[i] && v[i] == t[i]);
                } else {
                    assert(s[i] == a.last() && t[i] == b.last());
                }
            }
            if k < a.len() && k < b.len() {
                let s1 = a.skip(a.len() - k - 1);
                let t1 = b.skip(b.len() - k - 1);
                let u1 = x.skip(x.len() - (k - 1) - 1);
                let v1 = y.skip(y.len() - (k - 1) - 1);
                let bad = choose|i: int|
                    0 <= i < u1.len() && (#[trigger] u1[i]) != v1[i] && !is_other_case(u1[i], v1[i]);
                assert(s1[bad] == u1[bad] && t1[bad] == v1[bad]);
            }
        } else {
            let s1 = a.skip(a.len() - 1);
            let t1 = b.skip(b.len() - 1);
            assert(s1[0] == a.last() && t1[0] == b.last());
        }
    }
}

/// A query with a separator gains by the share of it that ends the path, where
/// that is more than ten bytes and three tenths of it; other queries gain
/// nothing.
pub proof fn law_ends_of_paths_gain(x: ScoredFile<'_>)
    requires
        x.holds(),
    ensures
        !x.has_separator ==> x.score.path_alignment_bonus == 0,
        0 <= x.score.path_alignment_bonus <= x.hit.score,
        x.score.path_alignment_bonus > 0 ==> x.needle.len() > 10 && x.path.len() > 10
            && is_same_word(
            x.needle.skip(x.needle.len() - 11),
            x.path.skip(x.path.len() - 11),
        ),
        x.has_separator && x.needle.len() > 10 && x.path.len() >= x.needle.len() && is_same_word(
            x.needle,
            x.path.skip(x.path.len() - x.needle.len()),
        ) ==> x.score.path_alignment_bonus == x.hit.score,
{
    lemma_parts(x);
    law_common_ends(x.needle, x.path);
    let k = formula::common_suffix(x.needle, x.path) as int;
    let n = x.needle.len() as int;
    let m = x.path.len() as int;
    if k > 10 {
        let s = x.needle.skip(n - k);
        let t = x.path.skip(m - k);
        assert(x.needle.skip(n - 11) =~= s.skip(k - 11));
        assert(x.path.skip(m - 11) =~= t.skip(k - 11));
        assert forall|i: int| 0 <= i < 11 implies (#[trigger] x.needle.skip(n - 11)[i])
            == x.path.skip(m - 11)[i] || is_other_case(
            x.needle.skip(n - 11)[i],
            x.path.skip(m - 11)[i],
        ) by {
            assert(s[k - 11 + i] == t[k - 11 + i] || is_other_case(s[k - 11 + i], t[k - 11 + i]));
        }
    }
    if m >= n && is_same_word(x.needle, x.path.skip(m - n)) && k < n {
        let u = x.needle.skip(n - k - 1);
        let v = x.path.skip(m - k - 1);
        let w = x.path.skip(m - n);
        assert forall|i: int| 0 <= i < u.len() implies (#[trigger] u[i]) == v[i] || is_other_case(
            u[i],
            v[i],
        ) by {
            assert(u[i] == x.needle[n - k - 1 + i]);
            assert(v[i] == w[n - k - 1 + i]);
        }
    }
    if k == n {
        assert((k * 100) / n == 100) by (nonlinear_arith)
            requires
                k == n,
                n > 0,
        ;
    }
}

/// `k` bytes are the common end of the two texts, but for case.
pub open spec fn is_common_end(a: Seq<u8>, b: Seq<u8>, k: int) -> bool {
    &&& 0 <= k <= a.len()
    &&& k <= b.len()
    &&& is_same_word(a.skip(a.len() - k), b.skip(b.len() - k))
    &&& k < a.len() && k < b.len() ==> !is_same_word(
        a.skip(a.len() - k - 1),
        b.skip(b.len() - k - 1),
    )
}

proof fn lemma_common_end_unique(a: Seq<u8>, b: Seq<u8>, k: int, m: int)
    requires
        is_common_end(a, b, k),
        is_common_end(a, b, m),
    ensures
        k == m,
{
    if k < m {
        lemma_longer_end(a, b, k, m);
    } else if m < k {
        lemma_longer_end(a, b, m, k);
    }
}

proof fn lemma_longer_end(a: Seq<u8>, b: Seq<u8>, k: int, m: int)
    requires
        0 <= k < m <= a.len(),
        m <= b.len(),
        is_same_word(a.skip(a.len() - m), b.skip(b.len() - m)),
    ensures
        is_same_word(a.skip(a.len() - k - 1), b.skip(b.len() - k - 1)),
{
    let s = a.skip(a.len() - m);
    let t = b.skip(b.len() - m);
    let u = a.skip(a.len() - k - 1);
    let v = b.skip(b.len() - k - 1);
    assert forall|i: int| 0 <= i < u.len() implies (#[trigger] u[i]) == v[i] || is_other_case(
        u[i],
        v[i],
    ) by {
        let j = m - k - 1 + i;
        assert(u[i] == s[j] && v[i] == t[j]);
    }
}

/// Where `k` bytes of a query with a separator end the path, it gains that share
/// of what the hit is worth, in whole percent, if they are more than ten and
/// three tenths of it at least; it gains nothing else.
pub proof fn law_ends_gain_their_share(x: ScoredFile<'_>, k: int)
    requires
        x.holds(),
        x.has_separator,
        is_common_end(x.needle, x.path, k),
    ensures
        k <= 10 || 100 * k < 30 * x.needle.len() ==> x.score.path_alignment_bonus == 0,
        k > 10 && 100 * k >= 30 * x.needle.len() ==> {
            let share = 100 * k / x.needle.len() as int;
            100 * x.score.path_alignment_bonus <= x.hit.score * share < 100
                * x.score.path_alignment_bonus + 100
        },
{
    lemma_parts(x);
    law_common_ends(x.needle, x.path);
    let common = formula::common_suffix(x.needle, x.path) as int;
    lemma_common_end_unique(x.needle, x.path, k, common);
    let n = x.needle.len() as int;
    assert(k * 100 == 100 * k);
    if 100 * k >= 30 * n {
        assert((100 * k) / n >= 30) by (nonlinear_arith)
            requires
                100 * k >= 30 * n,
                n > 0,
        ;
    } else {
        assert((100 * k) / n < 30) by (nonlinear_arith)
            requires
                100 * k < 30 * n,
                n > 0,
        ;
    }
}

/// Of two queries of one length, the one of which more ends the path never gains
/// less.
pub proof fn law_longer_ends_gain_more(
    a: Seq<u8>,
    b: Seq<u8>,
    path_a: Seq<u8>,
    path_b: Seq<u8>,
    hit: Hit,
)
    requires
        a.len() == b.len() > 0,
        formula::common_suffix(a, path_a) <= formula::common_suffix(b, path_b),
    ensures
        formula::alignment_bonus(path_a, a, hit) <= formula::alignment_bonus(path_b, b, hit),
{
    law_common_ends(a, path_a);
    law_common_ends(b, path_b);
    let n = a.len() as int;
    let x = formula::common_suffix(a, path_a) as int;
    let y = formula::common_suffix(b, path_b) as int;
    let s = hit.score as int;
    let cx = x * 100 / n;
    let cy = y * 100 / n;
    assert(0 <= cx <= cy) by (nonlinear_arith)
        requires
            cx == (x * 100) / n,
            cy == (y * 100) / n,
            0 <= x <= y,
            n > 0,
    ;
    assert(0 <= s * cx <= s * cy) by (nonlinear_arith)
        requires
            0 <= s,
            0 <= cx <= cy,
    ;
}

} // verus!
