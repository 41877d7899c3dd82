//! Fuzzy search over files.

use crate::score::context::{FFFQuery, FuzzyQuery, Score, ScoringContext};
use crate::score::formula;
use crate::score::formula::{match_start_approx, score_match};
use crate::score::frecency;
use crate::score::frecency::{frecency_scores, rank_by_frecency};
use crate::score::hits;
use crate::score::hits::{keep_valid, match_list, match_options, match_parts, Hit, MatchOptions};
use crate::score::paginate;
use crate::score::paginate::{sort_and_paginate, FileRanking};
use crate::score::rows;
use crate::score::rows::{filter_by_constraints, read_file_path, read_file_text, FileItems};
use crate::simd_path::ArenaPtr;
use crate::types;
use crate::types::FileItem;
use vstd::prelude::*;

verus! {

/// Past this many hits, names are not matched by themselves any more.
pub const MAX_NAME_MATCHES: usize = 15_000;

/// Past this many hits, names are matched on more than one thread.
pub const MIN_PARALLEL_NAMES: usize = 4096;

/// What is matched fuzzily, if anything is.
pub open spec fn query_parts<'q>(query: FFFQuery<'q>) -> Option<Seq<&'q str>> {
    match query.fuzzy_query {
        FuzzyQuery::Text(text) => if hits::byte_len(text@) >= 2 {
            Some(seq![text])
        } else {
            None
        },
        FuzzyQuery::Parts(parts) => if parts@.len() > 0 {
            Some(parts@)
        } else {
            None
        },
        FuzzyQuery::Empty => None,
    }
}

/// What is matched fuzzily, if anything is: a text of at least two bytes, or
/// all of the parts.
pub fn fuzzy_parts<'q>(query: &FFFQuery<'q>) -> (r: Option<Vec<&'q str>>)
    ensures
        match r {
            Some(parts) => query_parts(*query) == Some(parts@),
            None => query_parts(*query) is None,
        },
{
    match &query.fuzzy_query {
        FuzzyQuery::Text(text) => {
            let bytes = text.as_bytes();
            if bytes.len() >= 2 {
                let mut parts: Vec<&'q str> = Vec::new();
                parts.push(*text);
                assert(parts@ =~= seq![*text]);
                Some(parts)
            } else {
                None
            }
        },
        FuzzyQuery::Parts(parts) => {
            if parts.len() == 0 {
                return None;
            }
            let mut out: Vec<&'q str> = Vec::new();
            let mut i: usize = 0;
            while i < parts.len()
                invariant
                    i <= parts@.len(),
                    out@ == parts@.take(i as int),
                decreases parts@.len() - i,
            {
                out.push(parts[i]);
                assert(out@ =~= parts@.take(i + 1));
                i += 1;
            }
            assert(out@ =~= parts@);
            Some(out)
        },
        FuzzyQuery::Empty => None,
    }
}

/// The relative path of the file, as text.
pub open spec fn text_in(arena: ArenaPtr<'_>, file: FileItem) -> Seq<char> {
    vstd::utf8::decode_utf8(rows::path_in(arena, file))
}

/// The name of the file, as text.
pub open spec fn name_in(arena: ArenaPtr<'_>, file: FileItem) -> Seq<char> {
    vstd::utf8::decode_utf8(formula::name_of(rows::path_in(arena, file), file))
}

/// Places of the rows that are not deleted, among the first `n`.
pub open spec fn live_places(rows: Seq<&FileItem>, n: int) -> Seq<int>
    decreases n,
{
    if n <= 0 {
        Seq::empty()
    } else if rows[n - 1].deleted() {
        live_places(rows, n - 1)
    } else {
        live_places(rows, n - 1).push(n - 1)
    }
}

pub proof fn lemma_live_places(rows: Seq<&FileItem>, n: int)
    requires
        0 <= n <= rows.len(),
    ensures
        live_places(rows, n).len() <= n,
        forall|t: int|
            0 <= t < live_places(rows, n).len() ==> 0 <= (#[trigger] live_places(rows, n)[t]) < n
                && !rows[live_places(rows, n)[t]].deleted(),
        forall|t: int, u: int|
            0 <= t < u < live_places(rows, n).len() ==> (#[trigger] live_places(rows, n)[t]) < (
            #[trigger] live_places(rows, n)[u]),
    decreases n,
{
    if n > 0 {
        lemma_live_places(rows, n - 1);
    }
}

/// The texts of the rows at these places.
pub open spec fn texts_at(
    rows: Seq<&FileItem>,
    places: Seq<int>,
    arena: ArenaPtr<'_>,
) -> Seq<Seq<char>> {
    Seq::new(places.len(), |t: int| text_in(arena, *rows[places[t]]))
}

/// Hits among the rows at these places, as hits among all rows.
pub open spec fn placed(found: Seq<Hit>, places: Seq<int>) -> Seq<Hit> {
    Seq::new(
        found.len(),
        |i: int| Hit { index: places[found[i].index as int] as u32, ..found[i] },
    )
}

/// What matching the live rows against the parts gives.
pub open spec fn matches_rows(
    out: Seq<Hit>,
    rows: Seq<&FileItem>,
    parts: Seq<&str>,
    options: MatchOptions,
    threads: usize,
    arena: ArenaPtr<'_>,
) -> bool {
    let valid = hits::valid_parts(parts, parts.len() as int);
    let places = live_places(rows, rows.len() as int);
    if valid.len() == 0 {
        out.len() == 0
    } else {
        exists|found: Seq<Hit>| #[trigger]
            hits::matches_parts(found, valid, texts_at(rows, places, arena), options, threads)
                && hits::hits_fit(found, places.len()) && out == placed(found, places)
    }
}

/// Every row can be read.
pub open spec fn rows_readable(rows: Seq<&FileItem>, arena: ArenaPtr<'_>) -> bool {
    forall|i: int| 0 <= i < rows.len() ==> rows::readable(arena, *#[trigger] rows[i])
}

/// Matches the live files against every part of at least two bytes.
pub fn match_fuzzy_parts(
    fuzzy_parts: &Vec<&str>,
    working_files: &FileItems<'_>,
    options: MatchOptions,
    max_threads: usize,
    arena: ArenaPtr<'_>,
) -> (r: Vec<Hit>)
    requires
        working_files.rows().len() < u32::MAX,
        rows_readable(working_files.rows(), arena),
    ensures
        matches_rows(r@, working_files.rows(), fuzzy_parts@, options, max_threads, arena),
        hits::hits_fit(r@, working_files.rows().len()),
        forall|i: int|
            0 <= i < r@.len() ==> !working_files.rows()[(#[trigger] r@[i]).index as int].deleted(),
{
    let valid = keep_valid(fuzzy_parts.as_slice());
    if valid.len() == 0 {
        return Vec::new();
    }
    let ghost all = working_files.rows();
    let mut texts: Vec<String> = Vec::new();
    let mut places: Vec<u32> = Vec::new();
    let mut i: usize = 0;
    while i < working_files.len()
        invariant
            all == working_files.rows(),
            all.len() < u32::MAX,
            rows_readable(all, arena),
            i <= all.len(),
            texts@.len() == places@.len() == live_places(all, i as int).len(),
            forall|t: int|
                0 <= t < places@.len() ==> (#[trigger] places@[t]) == live_places(all, i as int)[t],
            forall|t: int|
                0 <= t < texts@.len() ==> (#[trigger] texts@[t])@ == text_in(
                    arena,
                    *all[live_places(all, i as int)[t]],
                ),
        decreases all.len() - i,
    {
        let file = working_files.index(i);
        assert(rows::readable(arena, *all[i as int]));
        if !file.is_deleted() {
            let text = read_file_text(arena, file);
            proof {
                vstd::utf8::encode_utf8_decode_utf8(text@);
            }
            texts.push(text);
            places.push(i as u32);
        }
        i += 1;
    }
    let ghost slots = live_places(all, all.len() as int);
    proof {
        lemma_live_places(all, all.len() as int);
        assert(hits::texts_of(texts@) =~= texts_at(all, slots, arena));
    }
    let found = match_parts(&valid, &texts, options, max_threads);
    let mut out: Vec<Hit> = Vec::new();
    let mut j: usize = 0;
    while j < found.len()
        invariant
            j <= found@.len(),
            hits::hits_fit(found@, slots.len()),
            places@.len() == slots.len(),
            forall|t: int| 0 <= t < places@.len() ==> (#[trigger] places@[t]) == slots[t],
            out@.len() == j,
            forall|k: int| 0 <= k < j ==> #[trigger] out@[k] == placed(found@, slots)[k],
        decreases found@.len() - j,
    {
        let hit: Hit = found[j];
        assert(found@[j as int].index < slots.len());
        out.push(
            Hit {
                index: places[hit.index as usize],
                score: hit.score,
                exact: hit.exact,
                end_col: hit.end_col,
            },
        );
        j += 1;
    }
    proof {
        assert(out@ =~= placed(found@, slots));
        assert forall|i: int| 0 <= i < out@.len() implies (#[trigger] out@[i]).index < all.len()
            && !all[out@[i].index as int].deleted() by {
            assert(found@[i].index < slots.len());
            assert(slots[found@[i].index as int] < all.len());
        }
        assert forall|i: int, j: int| 0 <= i < j < out@.len() implies (#[trigger] out@[i]).index
            != (#[trigger] out@[j]).index by {
            let a = found@[i].index as int;
            let b = found@[j].index as int;
            assert(a != b);
            if a < b {
                assert(slots[a] < slots[b]);
            } else {
                assert(slots[b] < slots[a]);
            }
        }
    }
    out
}

/// Some part holds a `/` or the platform's own separator.
pub open spec fn any_separator(parts: Seq<&str>, own: char) -> bool {
    exists|i: int| 0 <= i < parts.len() && holds_separator((#[trigger] parts[i])@, own)
}

pub open spec fn holds_separator(text: Seq<char>, own: char) -> bool {
    text.contains('/') || text.contains(own)
}

fn has_separator(text: &str, own: char) -> (r: bool)
    ensures
        r == holds_separator(text@, own),
{
    broadcast use vstd::string::axiom_spec_iter;

    let mut found: bool = false;
    for c in it: text.chars()
        invariant
            it.seq() == text@,
            found ==> holds_separator(text@, own),
            !found ==> forall|k: int|
                0 <= k < it.index() ==> (#[trigger] text@[k]) != '/' && text@[k] != own,
    {
        assert(c == text@[it.index()]);
        if c == '/' || c == own {
            assert(text@.contains(c));
            found = true;
        }
    }
    found
}

fn contains_separator(parts: &Vec<&str>, own: char) -> (r: bool)
    ensures
        r == any_separator(parts@, own),
{
    let mut i: usize = 0;
    while i < parts.len()
        invariant
            i <= parts@.len(),
            forall|k: int| 0 <= k < i ==> !holds_separator((#[trigger] parts@[k])@, own),
        decreases parts@.len() - i,
    {
        if has_separator(parts[i], own) {
            return true;
        }
        i += 1;
    }
    false
}

/// The hits, among the first `n`, that landed in front of the file's name.
pub open spec fn missed_names(
    rows: Seq<&FileItem>,
    found: Seq<Hit>,
    needle_len: int,
    n: int,
) -> Seq<int>
    decreases n,
{
    if n <= 0 {
        Seq::empty()
    } else if formula::lands_in_name(found[n - 1], *rows[found[n - 1].index as int], needle_len) {
        missed_names(rows, found, needle_len, n - 1)
    } else {
        missed_names(rows, found, needle_len, n - 1).push(n - 1)
    }
}

pub proof fn lemma_missed_names(rows: Seq<&FileItem>, found: Seq<Hit>, needle_len: int, n: int)
    requires
        0 <= n <= found.len(),
    ensures
        missed_names(rows, found, needle_len, n).len() <= n,
        forall|t: int|
            0 <= t < missed_names(rows, found, needle_len, n).len() ==> 0 <= (
            #[trigger] missed_names(rows, found, needle_len, n)[t]) < n && !formula::lands_in_name(
                found[missed_names(rows, found, needle_len, n)[t]],
                *rows[found[missed_names(rows, found, needle_len, n)[t]].index as int],
                needle_len,
            ),
        forall|t: int, u: int|
            0 <= t < u < missed_names(rows, found, needle_len, n).len() ==> (
            #[trigger] missed_names(rows, found, needle_len, n)[t]) < (#[trigger] missed_names(
                rows,
                found,
                needle_len,
                n,
            )[u]),
    decreases n,
{
    if n > 0 {
        lemma_missed_names(rows, found, needle_len, n - 1);
    }
}

/// The hits whose names are matched by themselves; none, where the query is
/// `separated` into segments.
pub open spec fn name_candidates(
    rows: Seq<&FileItem>,
    found: Seq<Hit>,
    parts: Seq<&str>,
    separated: bool,
) -> Seq<int> {
    if separated || found.len() > MAX_NAME_MATCHES {
        Seq::empty()
    } else {
        missed_names(rows, found, formula::counted(hits::byte_len(parts[0]@)), found.len() as int)
    }
}

proof fn lemma_candidates(
    rows: Seq<&FileItem>,
    found: Seq<Hit>,
    parts: Seq<&str>,
    separated: bool,
)
    ensures
        ({
            let places = name_candidates(rows, found, parts, separated);
            &&& places.len() <= found.len()
            &&& forall|t: int|
                0 <= t < places.len() ==> 0 <= (#[trigger] places[t]) < found.len()
                    && !formula::lands_in_name(
                    found[places[t]],
                    *rows[found[places[t]].index as int],
                    formula::counted(hits::byte_len(parts[0]@)),
                )
            &&& forall|t: int, u: int|
                0 <= t < u < places.len() ==> (#[trigger] places[t]) < (#[trigger] places[u])
        }),
{
    lemma_missed_names(rows, found, formula::counted(hits::byte_len(parts[0]@)), found.len() as int);
}

/// The names of the files that were hit, at these places among the hits.
pub open spec fn names_at(
    rows: Seq<&FileItem>,
    found: Seq<Hit>,
    places: Seq<int>,
    arena: ArenaPtr<'_>,
) -> Seq<Seq<char>> {
    Seq::new(places.len(), |t: int| name_in(arena, *rows[found[places[t]].index as int]))
}

/// Threads that names are matched on.
pub open spec fn name_threads(found: int, max_threads: usize) -> usize {
    if found > MIN_PARALLEL_NAMES {
        (max_threads / 2048 + if max_threads % 2048 == 0 {
            0int
        } else {
            1
        }) as usize
    } else {
        1
    }
}

/// What matching names by themselves gives.
pub open spec fn matches_names(
    named: Seq<Hit>,
    rows: Seq<&FileItem>,
    found: Seq<Hit>,
    parts: Seq<&str>,
    separated: bool,
    options: MatchOptions,
    threads: usize,
    arena: ArenaPtr<'_>,
) -> bool {
    let places = name_candidates(rows, found, parts, separated);
    if places.len() == 0 {
        named.len() == 0
    } else {
        hits::may_match(
            parts[0]@,
            names_at(rows, found, places, arena),
            options.values(),
            name_threads(found.len() as int, threads),
            hits::hit_values(named),
        ) && hits::hits_fit(named, places.len())
    }
}

/// The name of hit `i` was hit, as `named[p]`.
pub open spec fn named_at(places: Seq<int>, named: Seq<Hit>, i: int, p: int) -> bool {
    0 <= p < named.len() && places[named[p].index as int] == i
}

/// The hit of the name of hit `i`.
pub open spec fn by_name(places: Seq<int>, named: Seq<Hit>, i: int) -> Option<Hit> {
    if exists|p: int| #[trigger] named_at(places, named, i, p) {
        Some(named[choose|p: int| #[trigger] named_at(places, named, i, p)])
    } else {
        None
    }
}

/// Each hit with its score.
pub open spec fn scored_hits<'a>(
    rows: Seq<&'a FileItem>,
    found: Seq<Hit>,
    named: Seq<Hit>,
    parts: Seq<&str>,
    context: ScoringContext<'_>,
    arena: ArenaPtr<'_>,
) -> Seq<(&'a FileItem, Score)> {
    Seq::new(
        found.len(),
        |i: int|
            {
                let file = rows[found[i].index as int];
                (
                    file,
                    formula::score_of(
                        *file,
                        rows::path_in(arena, *file),
                        found[i],
                        by_name(
                            name_candidates(
                                rows,
                                found,
                                parts,
                                any_separator(parts, context.main_separator),
                            ),
                            named,
                            i,
                        ),
                        vstd::utf8::encode_utf8(parts[0]@),
                        any_separator(parts, context.main_separator),
                        context,
                    ),
                )
            },
    )
}

/// Files with the same known parent are in the same directory.
pub open spec fn parents_agree(rows: Seq<&FileItem>, arena: ArenaPtr<'_>) -> bool {
    forall|i: int, j: int|
        0 <= i < rows.len() && 0 <= j < rows.len() && (#[trigger] rows[i]).parent_dir_index == (
        #[trigger] rows[j]).parent_dir_index && rows[i].parent_dir_index != u32::MAX
            ==> rows::path_in(arena, *rows[i]).take(rows[i].path.filename_offset as int)
            == rows::path_in(arena, *rows[j]).take(rows[j].path.filename_offset as int)
}

/// Collects the hits whose names are to be matched by themselves.
fn collect_names(
    working_files: &FileItems<'_>,
    found: &Vec<Hit>,
    parts: &Vec<&str>,
    separated: bool,
    arena: ArenaPtr<'_>,
) -> (r: (Vec<usize>, Vec<String>))
    requires
        parts@.len() > 0,
        formula::counted(hits::byte_len(parts@[0]@)) > 0,
        hits::hits_fit(found@, working_files.rows().len()),
        rows_readable(working_files.rows(), arena),
    ensures
        r.0@.len() == name_candidates(working_files.rows(), found@, parts@, separated).len(),
        forall|t: int|
            0 <= t < r.0@.len() ==> (#[trigger] r.0@[t]) == name_candidates(
                working_files.rows(),
                found@,
                parts@,
                separated,
            )[t],
        hits::texts_of(r.1@) == names_at(
            working_files.rows(),
            found@,
            name_candidates(working_files.rows(), found@, parts@, separated),
            arena,
        ),
{
    let ghost all = working_files.rows();
    let mut places: Vec<usize> = Vec::new();
    let mut names: Vec<String> = Vec::new();
    if separated || found.len() > MAX_NAME_MATCHES {
        assert(hits::texts_of(names@) =~= names_at(all, found@, Seq::empty(), arena));
        return (places, names);
    }
    let needle_len: u16 = (parts[0].as_bytes().len() % 65536) as u16;
    let mut i: usize = 0;
    while i < found.len()
        invariant
            all == working_files.rows(),
            needle_len == formula::counted(hits::byte_len(parts@[0]@)),
            needle_len > 0,
            hits::hits_fit(found@, all.len()),
            rows_readable(all, arena),
            i <= found@.len(),
            places@.len() == names@.len() == missed_names(
                all,
                found@,
                needle_len as int,
                i as int,
            ).len(),
            forall|t: int|
                0 <= t < places@.len() ==> (#[trigger] places@[t]) == missed_names(
                    all,
                    found@,
                    needle_len as int,
                    i as int,
                )[t],
            forall|t: int|
                0 <= t < names@.len() ==> (#[trigger] names@[t])@ == name_in(
                    arena,
                    *all[found@[missed_names(
                        all,
                        found@,
                        needle_len as int,
                        i as int,
                    )[t]].index as int],
                ),
        decreases found@.len() - i,
    {
        let hit: Hit = found[i];
        assert(found@[i as int].index < all.len());
        let file = working_files.index(hit.index as usize);
        assert(rows::readable(arena, *all[hit.index as int]));
        if match_start_approx(hit.end_col, needle_len) < file.path.filename_offset {
            let path = read_file_path(arena, file);
            let offset: usize = file.path.filename_offset as usize;
            let name = vstd::slice::slice_subrange(path.as_slice(), offset, path.len());
            proof {
                assert(name@ =~= formula::name_of(path@, *file));
                vstd::utf8::valid_utf8_split(path@, offset as int);
                assert(path@.subrange(offset as int, path@.len() as int) =~= name@);
            }
            let text = types::text_of(vstd::slice::slice_to_vec(name));
            proof {
                vstd::utf8::encode_utf8_decode_utf8(text@);
            }
            names.push(text);
            places.push(i);
        }
        i += 1;
    }
    assert(hits::texts_of(names@) =~= names_at(
        all,
        found@,
        name_candidates(all, found@, parts@, separated),
        arena,
    ));
    (places, names)
}

proof fn lemma_by_name(places: Seq<int>, named: Seq<Hit>, i: int, p: int)
    requires
        hits::hits_fit(named, places.len()),
        forall|t: int, u: int| 0 <= t < u < places.len() ==> (#[trigger] places[t]) < (
        #[trigger] places[u]),
        named_at(places, named, i, p),
    ensures
        by_name(places, named, i) == Some(named[p]),
{
    let q = choose|q: int| #[trigger] named_at(places, named, i, q);
    let a = named[p].index as int;
    let b = named[q].index as int;
    assert(a < places.len() && b < places.len());
    if a < b {
        assert(places[a] < places[b]);
    } else if b < a {
        assert(places[b] < places[a]);
    }
    if p < q {
        assert(named[p].index != named[q].index);
    } else if q < p {
        assert(named[q].index != named[p].index);
    }
}

/// The hit of its name, for each hit.
fn names_by_hit(places: &Vec<usize>, named: &Vec<Hit>, count: usize) -> (r: Vec<Option<Hit>>)
    requires
        hits::hits_fit(named@, places@.len()),
        forall|t: int| 0 <= t < places@.len() ==> (#[trigger] places@[t]) < count,
        forall|t: int, u: int|
            0 <= t < u < places@.len() ==> (#[trigger] places@[t]) < (#[trigger] places@[u]),
    ensures
        r@.len() == count,
        forall|i: int|
            0 <= i < count ==> #[trigger] r@[i] == by_name(
                Seq::new(places@.len(), |t: int| places@[t] as int),
                named@,
                i,
            ),
{
    let ghost slots = Seq::new(places@.len(), |t: int| places@[t] as int);
    let mut out: Vec<Option<Hit>> = Vec::new();
    let mut i: usize = 0;
    while i < count
        invariant
            i <= count,
            out@.len() == i,
            forall|k: int| 0 <= k < i ==> #[trigger] out@[k] is None,
        decreases count - i,
    {
        out.push(None);
        i += 1;
    }
    let mut p: usize = 0;
    while p < named.len()
        invariant
            p <= named@.len(),
            out@.len() == count,
            hits::hits_fit(named@, places@.len()),
            slots == Seq::new(places@.len(), |t: int| places@[t] as int),
            forall|t: int| 0 <= t < places@.len() ==> (#[trigger] places@[t]) < count,
            forall|t: int, u: int|
                0 <= t < u < slots.len() ==> (#[trigger] slots[t]) < (#[trigger] slots[u]),
            forall|i: int|
                0 <= i < count && (#[trigger] out@[i]) is None ==> forall|q: int|
                    0 <= q < p ==> !#[trigger] named_at(slots, named@, i, q),
            forall|i: int|
                0 <= i < count && (#[trigger] out@[i]) is Some ==> out@[i] == by_name(
                    slots,
                    named@,
                    i,
                ),
        decreases named@.len() - p,
    {
        let ghost held = out@;
        let hit: Hit = named[p];
        assert(named@[p as int].index < places@.len());
        let at: usize = places[hit.index as usize];
        out.set(at, Some(hit));
        proof {
            assert(named_at(slots, named@, at as int, p as int));
            lemma_by_name(slots, named@, at as int, p as int);
            assert forall|i: int| 0 <= i < count && (#[trigger] out@[i]) is None implies forall|
                q: int,
            |
                0 <= q < p + 1 ==> !#[trigger] named_at(slots, named@, i, q) by {
                assert(held[i] is None);
            }
            assert forall|i: int| 0 <= i < count && (#[trigger] out@[i]) is Some implies out@[i]
                == by_name(slots, named@, i) by {
                if i != at {
                    assert(held[i] is Some);
                }
            }
        }
        p += 1;
    }
    out
}

/// The state that scoring keeps from hit to hit: the directory that was looked
/// at last, and its penalty.
struct ScoreBuffers {
    last_dir_penalty: Option<(u32, i32)>,
}

/// Penalty of the file's directory, looked up again only where the directory
/// changes.
fn distance_penalty(
    buffers: &mut ScoreBuffers,
    file: &FileItem,
    path: &[u8],
    context: &ScoringContext<'_>,
) -> (r: i32)
    requires
        file.path.filename_offset <= path@.len(),
        old(buffers).last_dir_penalty matches Some((parent, penalty)) ==> (parent
            == file.parent_dir_index && parent != u32::MAX ==> penalty
            == context.distance.penalty_of(path@.take(file.path.filename_offset as int))),
    ensures
        r == formula::penalty_at(*file, path@, *context),
        context.current_file is None ==> *final(buffers) == *old(buffers),
        context.current_file is Some ==> *final(buffers) == *old(buffers) || final(
            buffers).last_dir_penalty == Some(
            (
                file.parent_dir_index,
                context.distance.penalty_of(path@.take(file.path.filename_offset as int)),
            ),
        ),
{
    if context.current_file.is_none() {
        return 0;
    }
    if let Some((parent, penalty)) = buffers.last_dir_penalty {
        if parent == file.parent_dir_index && parent != u32::MAX {
            return penalty;
        }
    }
    let dir = vstd::slice::slice_subrange(path, 0, file.path.filename_offset as usize);
    assert(dir@ =~= path@.take(file.path.filename_offset as int));
    let penalty: i32 = context.distance.penalty(dir);
    buffers.last_dir_penalty = Some((file.parent_dir_index, penalty));
    penalty
}

/// What is remembered is true of every row.
spec fn remembers(
    buffers: ScoreBuffers,
    rows: Seq<&FileItem>,
    context: ScoringContext<'_>,
    arena: ArenaPtr<'_>,
) -> bool {
    buffers.last_dir_penalty matches Some((parent, penalty)) ==> forall|i: int|
        0 <= i < rows.len() && (#[trigger] rows[i]).parent_dir_index == parent && parent
            != u32::MAX ==> penalty == context.distance.penalty_of(
            rows::path_in(arena, *rows[i]).take(rows[i].path.filename_offset as int),
        )
}

/// Scores every hit. `named` holds the hits among the names at `places`.
pub fn score_hits<'a>(
    working_files: &FileItems<'a>,
    found: &Vec<Hit>,
    places: &Vec<usize>,
    named: &Vec<Hit>,
    parts: &Vec<&str>,
    context: &ScoringContext<'_>,
    arena: ArenaPtr<'_>,
) -> (r: Vec<(&'a FileItem, Score)>)
    requires
        parts@.len() > 0,
        formula::counted(hits::byte_len(parts@[0]@)) > 0,
        hits::hits_fit(found@, working_files.rows().len()),
        rows_readable(working_files.rows(), arena),
        context.current_file is Some ==> parents_agree(working_files.rows(), arena),
        formula::combo_fits(*context),
        Seq::new(places@.len(), |t: int| places@[t] as int) == name_candidates(
            working_files.rows(),
            found@,
            parts@,
            any_separator(parts@, context.main_separator),
        ),
        hits::hits_fit(named@, places@.len()),
    ensures
        r@ == scored_hits(working_files.rows(), found@, named@, parts@, *context, arena),
{
    let ghost all = working_files.rows();
    let needle = parts[0].as_bytes();
    let separated: bool = contains_separator(parts, context.main_separator);
    let ghost candidates = name_candidates(all, found@, parts@, separated);
    proof {
        let slots = Seq::new(places@.len(), |t: int| places@[t] as int);
        assert(slots == candidates);
        lemma_candidates(all, found@, parts@, separated);
        assert forall|t: int| 0 <= t < places@.len() implies (#[trigger] places@[t])
            < found@.len() by {
            assert(candidates[t] == slots[t]);
        }
        assert forall|t: int, u: int| 0 <= t < u < places@.len() implies (#[trigger] places@[t])
            < (#[trigger] places@[u]) by {
            assert(candidates[t] == slots[t] && candidates[u] == slots[u]);
        }
    }
    let names = names_by_hit(places, named, found.len());
    let mut buffers = ScoreBuffers { last_dir_penalty: None };
    let mut out: Vec<(&'a FileItem, Score)> = Vec::new();
    let mut i: usize = 0;
    while i < found.len()
        invariant
            all == working_files.rows(),
            candidates == name_candidates(all, found@, parts@, separated),
            parts@.len() > 0,
            needle@ == vstd::utf8::encode_utf8(parts@[0]@),
            formula::counted(needle@.len() as int) > 0,
            separated == any_separator(parts@, context.main_separator),
            hits::hits_fit(found@, all.len()),
            rows_readable(all, arena),
            context.current_file is Some ==> parents_agree(all, arena),
            formula::combo_fits(*context),
            names@.len() == found@.len(),
            forall|k: int|
                0 <= k < found@.len() ==> #[trigger] names@[k] == by_name(candidates, named@, k),
            forall|t: int|
                0 <= t < candidates.len() ==> !formula::lands_in_name(
                    found@[#[trigger] candidates[t]],
                    *all[found@[candidates[t]].index as int],
                    formula::counted(needle@.len() as int),
                ),
            hits::hits_fit(named@, candidates.len()),
            remembers(buffers, all, *context, arena),
            i <= found@.len(),
            out@.len() == i,
            forall|k: int|
                0 <= k < i ==> #[trigger] out@[k] == scored_hits(
                    all,
                    found@,
                    named@,
                    parts@,
                    *context,
                    arena,
                )[k],
        decreases found@.len() - i,
    {
        let hit: Hit = found[i];
        let ghost at = hit.index as int;
        assert(found@[i as int].index < all.len());
        let file = working_files.index(hit.index as usize);
        assert(rows::readable(arena, *all[at]));
        let path = read_file_path(arena, file);
        assert(*file == *all[at]);
        let ghost held = buffers;
        let penalty: i32 = distance_penalty(&mut buffers, file, path.as_slice(), context);
        proof {
            if buffers != held {
                assert(remembers(buffers, all, *context, arena));
            }
            if names@[i as int] is Some {
                let p = choose|p: int| #[trigger] named_at(candidates, named@, i as int, p);
                assert(named_at(candidates, named@, i as int, p));
                assert(named@[p].index < candidates.len());
                assert(candidates[named@[p].index as int] == i);
            }
        }
        let score = score_match(
            file,
            path.as_slice(),
            &hit,
            &names[i],
            needle,
            separated,
            context,
            penalty,
        );
        out.push((file, score));
        i += 1;
    }
    assert(out@ =~= scored_hits(all, found@, named@, parts@, *context, arena));
    out
}

/// What a search of some rows gives: every part was matched, then the names,
/// and each hit was scored.
pub open spec fn is_search<'a>(
    out: Seq<(&'a FileItem, Score)>,
    rows: Seq<&'a FileItem>,
    parts: Seq<&str>,
    context: ScoringContext<'_>,
    arena: ArenaPtr<'_>,
) -> bool {
    let options = hits::options_of(context.max_typos, hits::any_upper(parts));
    exists|found: Seq<Hit>, named: Seq<Hit>|
        #![trigger scored_hits(rows, found, named, parts, context, arena)]
        matches_rows(found, rows, parts, options, context.max_threads, arena) && matches_names(
            named,
            rows,
            found,
            parts,
            any_separator(parts, context.main_separator),
            options,
            context.max_threads,
            arena,
        ) && out == scored_hits(rows, found, named, parts, context, arena)
}

/// What a search of part of a table needs: files that can be read, few enough
/// to count, and a query that can be scored.
pub open spec fn can_search(
    files: Seq<FileItem>,
    context: ScoringContext<'_>,
    arena: ArenaPtr<'_>,
) -> bool {
    &&& files.len() < u32::MAX
    &&& forall|i: int| 0 <= i < files.len() ==> rows::readable(arena, #[trigger] files[i])
    &&& context.current_file is Some ==> parents_agree(
        Seq::new(files.len(), |i: int| &files[i]),
        arena,
    )
    &&& formula::combo_fits(context)
    &&& query_parts(*context.query) matches Some(parts) ==> formula::counted(
        hits::byte_len(parts[0]@),
    ) > 0
}

proof fn lemma_kept_readable<'a>(
    files: Seq<FileItem>,
    context: ScoringContext<'_>,
    at: int,
    arena: ArenaPtr<'_>,
)
    requires
        can_search(files, context, arena),
    ensures
        rows_readable(rows::kept_rows(files, context, at), arena),
        context.current_file is Some ==> parents_agree(
            rows::kept_rows(files, context, at),
            arena,
        ),
        rows::kept_rows(files, context, at).len() < u32::MAX,
{
    let kept = rows::kept_rows(files, context, at);
    let all = Seq::new(files.len(), |i: int| &files[i]);
    rows::lemma_kept_rows(files, context, at);
    assert forall|i: int| 0 <= i < kept.len() implies rows::readable(
        arena,
        *#[trigger] kept[i],
    ) by {
        assert(files.contains(*kept[i]));
        let k = choose|k: int| 0 <= k < files.len() && files[k] == *kept[i];
        assert(rows::readable(arena, files[k]));
    }
    if context.current_file is Some {
        assert forall|i: int, j: int|
            0 <= i < kept.len() && 0 <= j < kept.len() && (#[trigger] kept[i]).parent_dir_index == (
            #[trigger] kept[j]).parent_dir_index && kept[i].parent_dir_index
                != u32::MAX implies rows::path_in(arena, *kept[i]).take(
            kept[i].path.filename_offset as int,
        ) == rows::path_in(arena, *kept[j]).take(kept[j].path.filename_offset as int) by {
            assert(files.contains(*kept[i]));
            assert(files.contains(*kept[j]));
            let a = choose|k: int| 0 <= k < files.len() && files[k] == *kept[i];
            let b = choose|k: int| 0 <= k < files.len() && files[k] == *kept[j];
            assert(all[a].parent_dir_index == all[b].parent_dir_index);
        }
    }
}

/// What [`match_and_score_in_arena`] gives.
pub open spec fn is_part_result<'a>(
    out: Seq<(&'a FileItem, Score)>,
    files: Seq<FileItem>,
    context: ScoringContext<'_>,
    at: int,
    arena: ArenaPtr<'_>,
) -> bool {
    let kept = rows::kept_rows(files, context, at);
    match query_parts(*context.query) {
        Some(parts) => if context.kept is Some && kept.len() == 0 {
            out.len() == 0
        } else {
            is_search(out, kept, parts, context, arena)
        },
        None => out == frecency::scored_rows(
            rows::live_rows(kept, kept.len() as int),
            context,
            arena,
        ),
    }
}

/// Matches and scores the files of one arena. They are the rows from place `at`
/// of the table on.
pub fn match_and_score_in_arena<'a>(
    files: &'a [FileItem],
    context: &ScoringContext<'_>,
    at: usize,
    arena: ArenaPtr<'_>,
) -> (r: Vec<(&'a FileItem, Score)>)
    requires
        can_search(files@, *context, arena),
        rows::constrains(*context, at + files@.len()),
    ensures
        is_part_result(r@, files@, *context, at as int, arena),
{
    let ghost kept = rows::kept_rows(files@, *context, at as int);
    proof {
        lemma_kept_readable(files@, *context, at as int, arena);
    }
    let working_files = match filter_by_constraints(files, context, at) {
        Some(working_files) => working_files,
        None => {
            assert(frecency::scored_rows(rows::live_rows(kept, 0), *context, arena)
                =~= Seq::empty());
            return Vec::new();
        },
    };
    let parts = match fuzzy_parts(context.query) {
        Some(parts) => parts,
        None => {
            assert forall|i: int|
                0 <= i < working_files.rows().len() implies frecency::can_compare(
                *#[trigger] working_files.rows()[i],
                *context,
                arena,
            ) by {
                assert(rows::readable(arena, *kept[i]));
            }
            return frecency_scores(&working_files, context, arena);
        },
    };
    let options = match_options(parts.as_slice(), context.max_typos);
    let separated: bool = contains_separator(&parts, context.main_separator);
    let found = match_fuzzy_parts(&parts, &working_files, options, context.max_threads, arena);
    let (places, names) = collect_names(&working_files, &found, &parts, separated, arena);
    let ghost candidates = name_candidates(kept, found@, parts@, separated);
    proof {
        assert(Seq::new(places@.len(), |t: int| places@[t] as int) =~= candidates);
        hits::lemma_hits_bounded(found@, kept.len());
        lemma_candidates(kept, found@, parts@, separated);
        assert(names@.len() == hits::texts_of(names@).len());
    }
    let named: Vec<Hit> = if names.len() == 0 {
        Vec::new()
    } else {
        let threads: usize = if found.len() > MIN_PARALLEL_NAMES {
            context.max_threads / 2048 + if context.max_threads % 2048 == 0 {
                0
            } else {
                1
            }
        } else {
            1
        };
        match_list(parts[0], &names, options, threads)
    };
    assert(matches_names(
        named@,
        kept,
        found@,
        parts@,
        separated,
        options,
        context.max_threads,
        arena,
    ));
    let out = score_hits(&working_files, &found, &places, &named, &parts, context, arena);
    assert(is_search(out@, kept, parts@, *context, arena));
    out
}

/// What [`fuzzy_match_and_score_files`] gives for a fuzzy query: the overlays'
/// results in front of the base scan's, ranked.
pub open spec fn is_ranked_search<'a>(
    items: Seq<&'a FileItem>,
    scores: Seq<Score>,
    total: int,
    files: Seq<FileItem>,
    context: ScoringContext<'_>,
    base_count: int,
    base_arena: ArenaPtr<'_>,
    overflow_arena: ArenaPtr<'_>,
) -> bool {
    exists|over: Seq<(&'a FileItem, Score)>, base: Seq<(&'a FileItem, Score)>|
        #![trigger is_part_result(over, files.skip(base_count), context, base_count, overflow_arena), is_part_result(base, files.take(base_count), context, 0, base_arena)]
        {
            &&& is_part_result(over, files.skip(base_count), context, base_count, overflow_arena)
            &&& is_part_result(base, files.take(base_count), context, 0, base_arena)
            &&& total == over.len() + base.len()
            &&& paginate::is_page(
                over + base,
                FileRanking {  },
                context.pagination,
                items,
                scores,
            )
        }
}

/// Matches and scores the base scan and the overlays, each with an arena of
/// its own, and returns a page of the best.
///
/// Overlays come first: files that were added after the scan are more likely to
/// be looked for, and win ties.
pub fn fuzzy_match_and_score_files<'a>(
    files: &'a [FileItem],
    context: &ScoringContext<'_>,
    base_count: usize,
    base_arena: ArenaPtr<'_>,
    overflow_arena: ArenaPtr<'_>,
) -> (r: (Vec<&'a FileItem>, Vec<Score>, usize))
    requires
        rows::constrains(*context, files@.len() as int),
        query_parts(*context.query) is None && context.current_file is Some
            ==> frecency::split_by_layer(files@, base_count as int),
        query_parts(*context.query) is None ==> forall|k: int|
            0 <= k < files@.len() ==> frecency::can_compare(
                #[trigger] files@[k],
                *context,
                if k < base_count {
                    base_arena
                } else {
                    overflow_arena
                },
            ),
        query_parts(*context.query) is Some ==> ({
            let count = if base_count < files@.len() {
                base_count as int
            } else {
                files@.len() as int
            };
            can_search(files@.skip(count), *context, overflow_arena) && can_search(
                files@.take(count),
                *context,
                base_arena,
            )
        }),
    ensures
        ({
            let count = if base_count < files@.len() {
                base_count as int
            } else {
                files@.len() as int
            };
            match query_parts(*context.query) {
                Some(_) => is_ranked_search(
                    r.0@,
                    r.1@,
                    r.2 as int,
                    files@,
                    *context,
                    count,
                    base_arena,
                    overflow_arena,
                ),
                None => {
                    let results = frecency::frecency_results(
                        files@,
                        *context,
                        count,
                        base_arena,
                        overflow_arena,
                    );
                    &&& r.2 == results.len()
                    &&& paginate::is_page(
                        results,
                        FileRanking {  },
                        context.pagination,
                        r.0@,
                        r.1@,
                    )
                },
            }
        }),
{
    if fuzzy_parts(context.query).is_none() {
        return rank_by_frecency(files, context, base_count, base_arena, overflow_arena);
    }
    let count: usize = if base_count < files.len() {
        base_count
    } else {
        files.len()
    };
    let over = vstd::slice::slice_subrange(files, count, files.len());
    let base = vstd::slice::slice_subrange(files, 0, count);
    assert(over@ =~= files@.skip(count as int));
    assert(base@ =~= files@.take(count as int));
    let mut results = match_and_score_in_arena(over, context, count, overflow_arena);
    let ghost first = results@;
    let mut rest = match_and_score_in_arena(base, context, 0, base_arena);
    let ghost second = rest@;
    results.append(&mut rest);
    assert(results@ =~= first + second);
    assert(is_part_result(
        first,
        files@.skip(count as int),
        *context,
        count as int,
        overflow_arena,
    ));
    assert(is_part_result(second, files@.take(count as int), *context, 0, base_arena));
    sort_and_paginate(results, context.pagination)
}

} // verus!
