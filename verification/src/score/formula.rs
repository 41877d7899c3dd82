//! What a hit is worth.

use crate::bytes;
use crate::score::arith;
use crate::score::context::{Score, ScoringContext};
use crate::score::frecency;
use crate::score::hits::Hit;
use crate::types::FileItem;
use vstd::prelude::*;

verus! {

/// The byte in lower case, where it is an ASCII letter.
pub open spec fn folded(b: u8) -> u8 {
    if 65 <= b <= 90 {
        (b + 32) as u8
    } else {
        b
    }
}

pub open spec fn same_folded(a: Seq<u8>, b: Seq<u8>) -> bool {
    &&& a.len() == b.len()
    &&& forall|i: int| 0 <= i < a.len() ==> folded(#[trigger] a[i]) == folded(b[i])
}

pub fn fold(b: u8) -> (r: u8)
    ensures
        r == folded(b),
{
    if 65 <= b && b <= 90 {
        b + 32
    } else {
        b
    }
}

/// The bytes are the same, but for the case of ASCII letters.
pub fn eq_ignore_ascii_case(a: &[u8], b: &[u8]) -> (r: bool)
    ensures
        r == same_folded(a@, b@),
{
    if a.len() != b.len() {
        return false;
    }
    let mut i: usize = 0;
    while i < a.len()
        invariant
            i <= a@.len() == b@.len(),
            forall|k: int| 0 <= k < i ==> folded(#[trigger] a@[k]) == folded(b@[k]),
        decreases a@.len() - i,
    {
        if fold(a[i]) != fold(b[i]) {
            return false;
        }
        i += 1;
    }
    true
}

/// How many bytes match from the end, but for case.
pub open spec fn common_suffix(a: Seq<u8>, b: Seq<u8>) -> nat
    decreases a.len(),
{
    if a.len() == 0 || b.len() == 0 || folded(a.last()) != folded(b.last()) {
        0
    } else {
        1 + common_suffix(a.drop_last(), b.drop_last())
    }
}

proof fn lemma_suffix_bound(a: Seq<u8>, b: Seq<u8>)
    ensures
        common_suffix(a, b) <= a.len(),
    decreases a.len(),
{
    if a.len() > 0 && b.len() > 0 {
        lemma_suffix_bound(a.drop_last(), b.drop_last());
    }
}

fn suffix_overlap(a: &[u8], b: &[u8]) -> (r: usize)
    ensures
        r == common_suffix(a@, b@),
        r <= a@.len(),
{
    let mut k: usize = 0;
    proof {
        assert(a@.take(a@.len() as int) =~= a@);
        assert(b@.take(b@.len() as int) =~= b@);
        lemma_suffix_bound(a@, b@);
    }
    while k < a.len() && k < b.len() && fold(a[a.len() - 1 - k]) == fold(b[b.len() - 1 - k])
        invariant
            k <= a@.len(),
            k <= b@.len(),
            common_suffix(a@, b@) == k + common_suffix(
                a@.take(a@.len() - k),
                b@.take(b@.len() - k),
            ),
        decreases a@.len() - k,
    {
        proof {
            let x = a@.take(a@.len() - k);
            let y = b@.take(b@.len() - k);
            assert(x.drop_last() =~= a@.take(a@.len() - k - 1));
            assert(y.drop_last() =~= b@.take(b@.len() - k - 1));
        }
        k += 1;
    }
    k
}

/// Files that stand for their directory.
pub open spec fn is_special_name(name: Seq<u8>) -> bool {
    ||| name == vstd::utf8::encode_utf8("mod.rs"@)
    ||| name == vstd::utf8::encode_utf8("lib.rs"@)
    ||| name == vstd::utf8::encode_utf8("main.rs"@)
    ||| name == vstd::utf8::encode_utf8("index.js"@)
    ||| name == vstd::utf8::encode_utf8("index.jsx"@)
    ||| name == vstd::utf8::encode_utf8("index.ts"@)
    ||| name == vstd::utf8::encode_utf8("index.tsx"@)
    ||| name == vstd::utf8::encode_utf8("index.mjs"@)
    ||| name == vstd::utf8::encode_utf8("index.cjs"@)
    ||| name == vstd::utf8::encode_utf8("index.vue"@)
    ||| name == vstd::utf8::encode_utf8("__init__.py"@)
    ||| name == vstd::utf8::encode_utf8("__main__.py"@)
    ||| name == vstd::utf8::encode_utf8("main.go"@)
    ||| name == vstd::utf8::encode_utf8("main.c"@)
    ||| name == vstd::utf8::encode_utf8("index.php"@)
    ||| name == vstd::utf8::encode_utf8("main.rb"@)
    ||| name == vstd::utf8::encode_utf8("index.rb"@)
}

pub fn is_special_entry_point_file(filename: &[u8]) -> (r: bool)
    ensures
        r == is_special_name(filename@),
{
    bytes::same_bytes(filename, "mod.rs".as_bytes()) || bytes::same_bytes(
        filename,
        "lib.rs".as_bytes(),
    ) || bytes::same_bytes(filename, "main.rs".as_bytes()) || bytes::same_bytes(
        filename,
        "index.js".as_bytes(),
    ) || bytes::same_bytes(filename, "index.jsx".as_bytes()) || bytes::same_bytes(
        filename,
        "index.ts".as_bytes(),
    ) || bytes::same_bytes(filename, "index.tsx".as_bytes()) || bytes::same_bytes(
        filename,
        "index.mjs".as_bytes(),
    ) || bytes::same_bytes(filename, "index.cjs".as_bytes()) || bytes::same_bytes(
        filename,
        "index.vue".as_bytes(),
    ) || bytes::same_bytes(filename, "__init__.py".as_bytes()) || bytes::same_bytes(
        filename,
        "__main__.py".as_bytes(),
    ) || bytes::same_bytes(filename, "main.go".as_bytes()) || bytes::same_bytes(
        filename,
        "main.c".as_bytes(),
    ) || bytes::same_bytes(filename, "index.php".as_bytes()) || bytes::same_bytes(
        filename,
        "main.rb".as_bytes(),
    ) || bytes::same_bytes(filename, "index.rb".as_bytes())
}

/// A length as sixteen bits count it.
pub open spec fn counted(len: int) -> int {
    len % 65536
}

/// About where the match of a needle starts.
pub open spec fn match_start(end_col: u16, needle_len: int) -> int {
    if end_col >= needle_len - 1 {
        end_col - (needle_len - 1)
    } else {
        0
    }
}

pub fn match_start_approx(end_col: u16, needle_len: u16) -> (r: u16)
    requires
        needle_len > 0,
    ensures
        r == match_start(end_col, needle_len as int),
{
    if end_col >= needle_len - 1 {
        end_col - (needle_len - 1)
    } else {
        0
    }
}

/// The match landed in the last segment of the path.
pub open spec fn lands_in_name(hit: Hit, file: FileItem, needle_len: int) -> bool {
    match_start(hit.end_col, needle_len) >= file.path.filename_offset
}

/// The last segment of a path.
pub open spec fn name_of(path: Seq<u8>, file: FileItem) -> Seq<u8> {
    path.skip(file.path.filename_offset as int)
}

/// The needle is the file's name, but for case.
pub open spec fn is_exact_name(
    file: FileItem,
    path: Seq<u8>,
    needle: Seq<u8>,
    hit: Hit,
    by_name: Option<Hit>,
) -> bool {
    if lands_in_name(hit, file, counted(needle.len() as int)) {
        counted(needle.len() as int) == name_of(path, file).len() && same_folded(
            needle,
            name_of(path, file),
        )
    } else {
        by_name matches Some(found) && found.exact
    }
}

pub open spec fn is_name_match(file: FileItem, needle_len: int, hit: Hit, by_name: Option<Hit>) -> bool {
    lands_in_name(hit, file, needle_len) || by_name is Some
}

/// Bonus of a match in the file's name: 40% where it is the name, up to 16%
/// elsewhere in it. A match that only the name alone gave counts by its
/// quality. Files that stand for their directory get 5%.
pub open spec fn filename_bonus(
    file: FileItem,
    path: Seq<u8>,
    needle: Seq<u8>,
    hit: Hit,
    by_name: Option<Hit>,
) -> int {
    let base = hit.score as int;
    let n = counted(needle.len() as int);
    let name = name_of(path, file);
    let most = if base / 6 <= 30 {
        base / 6
    } else {
        30
    };
    if is_exact_name(file, path, needle, hit, by_name) {
        base / 5 * 2
    } else if lands_in_name(hit, file, n) {
        most
    } else if let Some(found) = by_name {
        let quality = if found.score <= n * 16 {
            found.score as int
        } else {
            n * 16
        };
        most * quality / (n * 16)
    } else if is_special_bonus(file, path, needle, hit, by_name) {
        base * 5 / 100
    } else {
        0
    }
}

/// The bonus is that of a file which stands for its directory.
pub open spec fn is_special_bonus(
    file: FileItem,
    path: Seq<u8>,
    needle: Seq<u8>,
    hit: Hit,
    by_name: Option<Hit>,
) -> bool {
    let name = name_of(path, file);
    &&& !is_exact_name(file, path, needle, hit, by_name)
    &&& !is_name_match(file, counted(needle.len() as int), hit, by_name)
    &&& 5 <= name.len() <= 11
    &&& is_special_name(name)
}

pub open spec fn ends_with(text: Seq<u8>, end: Seq<u8>) -> bool {
    text.len() >= end.len() && text.skip(text.len() - end.len()) == end
}

/// The file was opened from the same query before.
pub open spec fn is_combo(path: Seq<u8>, context: ScoringContext<'_>) -> bool {
    context.last_same_query_match matches Some(entry) && ends_with(
        vstd::utf8::encode_utf8(entry.file_path@),
        path,
    )
}

/// The count as a signed number, which wraps around.
pub open spec fn signed_count(count: u32) -> int {
    if count <= i32::MAX {
        count as int
    } else {
        count - 0x1_0000_0000
    }
}

/// Boost of a file that was opened from the same query before.
pub open spec fn combo_boost(path: Seq<u8>, context: ScoringContext<'_>) -> int {
    if !is_combo(path, context) {
        0
    } else {
        let count = signed_count(context.last_same_query_match->0.open_count);
        if context.min_combo_count == 0 {
            1000
        } else if context.last_same_query_match->0.open_count >= context.min_combo_count {
            count * context.combo_boost_score_multiplier
        } else {
            count * 5
        }
    }
}

/// The boost of a repeated query can be counted.
pub open spec fn combo_fits(context: ScoringContext<'_>) -> bool {
    context.last_same_query_match matches Some(entry) ==> {
        let count = signed_count(entry.open_count);
        if context.min_combo_count == 0 {
            true
        } else if entry.open_count >= context.min_combo_count {
            i32::MIN <= count * context.combo_boost_score_multiplier <= i32::MAX
        } else {
            i32::MIN <= count * 5 <= i32::MAX
        }
    }
}

/// Bonus for a path that ends the way the query does.
pub open spec fn alignment_bonus(path: Seq<u8>, needle: Seq<u8>, hit: Hit) -> int {
    let common = common_suffix(needle, path) as int;
    let coverage = common * 100 / needle.len() as int;
    if common > 10 && coverage >= 30 {
        hit.score * coverage / 100
    } else {
        0
    }
}

/// Boost of a score by how often a file is used.
pub open spec fn use_boost(base: int, frecency: int) -> int {
    arith::quotient(arith::clamped(base * frecency), 100)
}

/// Sum that saturates at each step.
pub open spec fn saturating_sum(parts: Seq<int>, n: int) -> int
    decreases n,
{
    if n <= 0 {
        0
    } else {
        arith::clamped(saturating_sum(parts, n - 1) + parts[n - 1])
    }
}

pub open spec fn penalty_at(
    file: FileItem,
    path: Seq<u8>,
    context: ScoringContext<'_>,
) -> i32 {
    match context.current_file {
        Some(_) => context.distance.penalty_of(path.take(file.path.filename_offset as int)),
        None => 0,
    }
}

/// The score of a hit. `by_name` is the hit of the file's name alone.
pub open spec fn score_of(
    file: FileItem,
    path: Seq<u8>,
    hit: Hit,
    by_name: Option<Hit>,
    needle: Seq<u8>,
    has_separator: bool,
    context: ScoringContext<'_>,
) -> Score {
    let base = hit.score as int;
    let frecency_boost = use_boost(base, file.total_frecency());
    let git = if file.git_modified {
        base * 15 / 100
    } else {
        0
    };
    let bonus = filename_bonus(file, path, needle, hit, by_name);
    let penalty = if context.current_file matches Some(current) && vstd::utf8::encode_utf8(current@)
        == path {
        -(base / 4)
    } else {
        0
    };
    let combo = combo_boost(path, context);
    let alignment = if has_separator {
        alignment_bonus(path, needle, hit)
    } else {
        0
    };
    let distance = penalty_at(file, path, context);
    let exact = is_exact_name(file, path, needle, hit, by_name);
    Score {
        total: saturating_sum(
            seq![
                base,
                frecency_boost,
                git,
                file.git_recency_score as int,
                distance as int,
                bonus,
                penalty,
                combo,
                alignment,
            ],
            9,
        ) as i32,
        base_score: base as i32,
        filename_bonus: bonus as i32,
        special_filename_bonus: if is_special_bonus(file, path, needle, hit, by_name) {
            bonus as i32
        } else {
            0
        },
        frecency_boost: frecency_boost as i32,
        git_status_boost: git as i32,
        git_recency_boost: file.git_recency_score as i32,
        distance_penalty: distance,
        current_file_penalty: penalty as i32,
        combo_match_boost: combo as i32,
        path_alignment_bonus: alignment as i32,
        exact_match: exact || hit.exact,
        match_type: if exact {
            "exact_filename"
        } else if is_name_match(file, counted(needle.len() as int), hit, by_name) {
            "fuzzy_filename"
        } else if hit.exact {
            "exact_path"
        } else {
            "fuzzy_path"
        },
    }
}

/// The parts of the filename bonus: the bonus, whether the needle is the name,
/// whether the match is in the name, and whether the file stands for its
/// directory.
fn score_name(
    file: &FileItem,
    path: &[u8],
    hit: &Hit,
    by_name: &Option<Hit>,
    needle: &[u8],
) -> (r: (i32, bool, bool, bool))
    requires
        counted(needle@.len() as int) > 0,
        file.path.filename_offset <= path@.len(),
        by_name is Some ==> !lands_in_name(*hit, *file, counted(needle@.len() as int)),
    ensures
        r.0 == filename_bonus(*file, path@, needle@, *hit, *by_name),
        0 <= r.0 <= 26214,
        r.1 == is_exact_name(*file, path@, needle@, *hit, *by_name),
        r.2 == is_name_match(*file, counted(needle@.len() as int), *hit, *by_name),
        r.3 == is_special_bonus(*file, path@, needle@, *hit, *by_name),
{
    let needle_len: u16 = (needle.len() % 65536) as u16;
    let base: i32 = hit.score as i32;
    let name = vstd::slice::slice_subrange(path, file.path.filename_offset as usize, path.len());
    assert(name@ =~= name_of(path@, *file));
    let lands: bool = match_start_approx(hit.end_col, needle_len) >= file.path.filename_offset;
    let most: i32 = if base / 6 <= 30 {
        base / 6
    } else {
        30
    };
    if lands {
        if needle_len as usize == name.len() && eq_ignore_ascii_case(needle, name) {
            return (base / 5 * 2, true, true, false);
        }
        return (most, false, true, false);
    }
    match by_name {
        Some(found) => {
            if found.exact {
                return (base / 5 * 2, true, true, false);
            }
            let max_possible: i32 = needle_len as i32 * 16;
            let score: i32 = found.score as i32;
            let quality: i32 = if score <= max_possible {
                score
            } else {
                max_possible
            };
            assert(0 <= most * quality <= 30 * 65535) by (nonlinear_arith)
                requires
                    0 <= most <= 30,
                    0 <= quality <= 65535,
            ;
            assert((most * quality) / (max_possible as int) <= 30) by (nonlinear_arith)
                requires
                    0 <= most <= 30,
                    0 <= quality <= max_possible,
                    max_possible > 0,
            ;
            assert((most * quality) / (max_possible as int) >= 0) by (nonlinear_arith)
                requires
                    0 <= most * quality,
                    max_possible > 0,
            ;
            (most * quality / max_possible, false, true, false)
        },
        None => {
            if 5 <= name.len() && name.len() <= 11 && is_special_entry_point_file(name) {
                (base * 5 / 100, false, false, true)
            } else {
                (0, false, false, false)
            }
        },
    }
}

fn signed(count: u32) -> (r: i32)
    ensures
        r == signed_count(count),
{
    if count <= 0x7fff_ffff {
        count as i32
    } else {
        (count as i64 - 0x1_0000_0000) as i32
    }
}

fn score_combo(path: &[u8], context: &ScoringContext<'_>) -> (r: i32)
    requires
        combo_fits(*context),
    ensures
        r == combo_boost(path@, *context),
{
    let entry = match context.last_same_query_match {
        Some(entry) => entry,
        None => {
            return 0;
        },
    };
    let text = entry.file_path.as_str().as_bytes();
    if text.len() < path.len() {
        return 0;
    }
    let start: usize = text.len() - path.len();
    let end = vstd::slice::slice_subrange(text, start, text.len());
    assert(end@ =~= text@.skip(start as int));
    if !bytes::same_bytes(end, path) {
        return 0;
    }
    if context.min_combo_count == 0 {
        1000
    } else if entry.open_count >= context.min_combo_count {
        signed(entry.open_count) * context.combo_boost_score_multiplier
    } else {
        signed(entry.open_count) * 5
    }
}

fn score_alignment(path: &[u8], needle: &[u8], hit: &Hit) -> (r: i32)
    requires
        1 <= needle@.len(),
    ensures
        r == alignment_bonus(path@, needle@, *hit),
{
    let common: usize = suffix_overlap(needle, path);
    let wide: u128 = common as u128;
    let needle_len: u128 = needle.len() as u128;
    let coverage: u128 = wide * 100 / needle_len;
    assert(coverage <= 100) by (nonlinear_arith)
        requires
            coverage == (wide * 100) / (needle_len as int),
            wide <= needle_len,
            needle_len > 0,
    ;
    if common > 10 && coverage >= 30 {
        let base: i32 = hit.score as i32;
        let share: i32 = coverage as i32;
        assert(0 <= base * share <= 6553500) by (nonlinear_arith)
            requires
                0 <= base <= 65535,
                0 <= share <= 100,
        ;
        base * share / 100
    } else {
        0
    }
}

fn add_up(a: i32, b: i32, c: i32, d: i32, e: i32, f: i32, g: i32, h: i32, i: i32) -> (r: i32)
    ensures
        r == saturating_sum(
            seq![
                a as int,
                b as int,
                c as int,
                d as int,
                e as int,
                f as int,
                g as int,
                h as int,
                i as int,
            ],
            9,
        ),
{
    proof {
        reveal_with_fuel(saturating_sum, 10);
    }
    let sum: i32 = arith::saturating_add(a, b);
    let sum: i32 = arith::saturating_add(sum, c);
    let sum: i32 = arith::saturating_add(sum, d);
    let sum: i32 = arith::saturating_add(sum, e);
    let sum: i32 = arith::saturating_add(sum, f);
    let sum: i32 = arith::saturating_add(sum, g);
    let sum: i32 = arith::saturating_add(sum, h);
    arith::saturating_add(sum, i)
}

/// The score of a hit. `by_name` is the hit of the file's name alone, and
/// `distance_penalty` that of the file's directory.
pub fn score_match(
    file: &FileItem,
    path: &[u8],
    hit: &Hit,
    by_name: &Option<Hit>,
    needle: &[u8],
    has_separator: bool,
    context: &ScoringContext<'_>,
    distance_penalty: i32,
) -> (r: Score)
    requires
        counted(needle@.len() as int) > 0,
        file.path.filename_offset <= path@.len(),
        by_name is Some ==> !lands_in_name(*hit, *file, counted(needle@.len() as int)),
        combo_fits(*context),
        distance_penalty == penalty_at(*file, path@, *context),
    ensures
        r == score_of(*file, path@, *hit, *by_name, needle@, has_separator, *context),
{
    let base_score: i32 = hit.score as i32;
    let frecency_boost: i32 = arith::percent(
        arith::saturating_mul(base_score, file.total_frecency_score()),
    );
    let git_status_boost: i32 = if file.git_modified {
        base_score * 15 / 100
    } else {
        0
    };
    let git_recency_boost: i32 = file.git_recency_score as i32;
    let (filename_bonus, is_exact_filename, is_filename_match, special) = score_name(
        file,
        path,
        hit,
        by_name,
        needle,
    );
    let current_file_penalty: i32 = match context.current_file {
        Some(current) => if bytes::same_bytes(path, current.as_bytes()) {
            -(base_score / 4)
        } else {
            0
        },
        None => 0,
    };
    let combo_match_boost: i32 = score_combo(path, context);
    let path_alignment_bonus: i32 = if has_separator {
        score_alignment(path, needle, hit)
    } else {
        0
    };
    let total: i32 = add_up(
        base_score,
        frecency_boost,
        git_status_boost,
        git_recency_boost,
        distance_penalty,
        filename_bonus,
        current_file_penalty,
        combo_match_boost,
        path_alignment_bonus,
    );
    Score {
        total,
        base_score,
        filename_bonus,
        special_filename_bonus: if special {
            filename_bonus
        } else {
            0
        },
        frecency_boost,
        git_status_boost,
        git_recency_boost,
        distance_penalty,
        current_file_penalty,
        combo_match_boost,
        path_alignment_bonus,
        exact_match: is_exact_filename || hit.exact,
        match_type: if is_exact_filename {
            "exact_filename"
        } else if is_filename_match {
            "fuzzy_filename"
        } else if hit.exact {
            "exact_path"
        } else {
            "fuzzy_path"
        },
    }
}

} // verus!
