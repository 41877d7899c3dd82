//! What searches are for: which files they find, and by what.

use crate::score::context::{FFFQuery, FuzzyQuery, Score, ScoringContext};
use crate::score::dir_laws::ScoredDir;
use crate::score::dirs;
use crate::score::files;
use crate::score::formula;
use crate::score::highlight;
use crate::score::hits;
use crate::score::hits::{Hit, MatchOptions, Trail};
use crate::score::laws::ScoredFile;
use crate::score::paginate;
use crate::score::paginate::{DirRanking, FileRanking};
use crate::score::rows;
use crate::simd_path::ArenaPtr;
use crate::sorting;
use crate::types::{DirItem, FileItem};
use vstd::prelude::*;

verus! {

/// A query of less than two bytes, or without parts, is not matched; any other
/// is matched as it is.
pub proof fn law_short_queries_are_not_matched<'q>(query: FFFQuery<'q>)
    ensures
        query.fuzzy_query matches FuzzyQuery::Text(text) ==> {
            let long = vstd::utf8::encode_utf8(text@).len() > 1;
            &&& files::query_parts(query) is Some <==> long
            &&& long ==> files::query_parts(query)->0.len() == 1 && files::query_parts(query)->0[0]
                == text
        },
        query.fuzzy_query matches FuzzyQuery::Parts(parts) ==> (if parts@.len() == 0 {
            files::query_parts(query) is None
        } else {
            files::query_parts(query) == Some(parts@)
        }),
        query.fuzzy_query is Empty ==> files::query_parts(query) is None,
{
}

/// Parts of less than two bytes are left out; the others stay, in order.
pub proof fn law_short_parts_are_left_out<'q>(parts: Seq<&'q str>, n: int, i: int)
    requires
        0 <= i < n <= parts.len(),
    ensures
        ({
            let long = vstd::utf8::encode_utf8(parts[i]@).len() > 1;
            let kept = hits::valid_parts(parts, n);
            let before = hits::valid_parts(parts, i).len() as int;
            &&& long ==> before < kept.len() && kept[before] == parts[i]
            &&& hits::valid_parts(parts, i + 1).len() == before + if long {
                1int
            } else {
                0
            }
        }),
    decreases n,
{
    if n - 1 > i {
        law_short_parts_are_left_out(parts, n - 1, i);
    }
}

/// The case of letters counts only for queries that hold an upper case letter;
/// so many typos are let pass as were asked for.
pub proof fn law_case_counts_where_it_is_used(parts: Seq<&str>, max_typos: u16, r: MatchOptions)
    requires
        r == hits::options_of(max_typos, hits::any_upper(parts)),
    ensures
        r.max_typos == max_typos,
        (forall|i: int, j: int|
            0 <= i < parts.len() && 0 <= j < parts[i]@.len() ==> !hits::is_upper(
                #[trigger] parts[i]@[j],
            )) ==> r.capitalization_bonus == 0 && r.matching_case_bonus == 0,
        (exists|i: int, j: int|
            0 <= i < parts.len() && 0 <= j < parts[i]@.len() && hits::is_upper(
                #[trigger] parts[i]@[j],
            )) ==> r.capitalization_bonus == 8 && r.matching_case_bonus == 4,
{
    if exists|i: int, j: int|
        0 <= i < parts.len() && 0 <= j < parts[i]@.len() && hits::is_upper(
            #[trigger] parts[i]@[j],
        ) {
        let (i, j) = choose|i: int, j: int|
            0 <= i < parts.len() && 0 <= j < parts[i]@.len() && hits::is_upper(
                #[trigger] parts[i]@[j],
            );
        assert(hits::is_upper(parts[i]@[j]));
        assert(hits::has_upper(parts[i]@));
    }
}

/// Later parts let no more typos pass than they have bytes, and no fewer than
/// that where more were asked for.
pub proof fn law_typos_are_capped(options: MatchOptions, part: Seq<char>)
    requires
        vstd::utf8::encode_utf8(part).len() < 65536,
    ensures
        ({
            let r = hits::capped(options, part);
            let len = vstd::utf8::encode_utf8(part).len();
            &&& r.max_typos <= options.max_typos
            &&& r.max_typos <= len
            &&& r.max_typos == options.max_typos || r.max_typos == len
            &&& r.capitalization_bonus == options.capitalization_bonus
            &&& r.matching_case_bonus == options.matching_case_bonus
        }),
{
}

/// `found` are hits of one text, one for each part so far, and the trail tells of
/// them: the score of each, whether all are exact, and where the first ends.
pub open spec fn tells_of(trail: Trail, found: Seq<Hit>) -> bool {
    &&& found.len() > 0
    &&& trail.scores.len() == found.len()
    &&& forall|k: int| 0 <= k < found.len() ==> #[trigger] trail.scores[k] == found[k].score
    &&& trail.exact <==> forall|k: int| 0 <= k < found.len() ==> (#[trigger] found[k]).exact
    &&& trail.end_col == found[0].end_col
    &&& trail.index == found[0].index
}

/// A text that every part hit has a hit for each of them; its score is their
/// average, it is exact where every hit is, and it lies where the first does.
pub proof fn law_every_part_has_its_hit(
    rounds: Seq<Seq<Trail>>,
    parts: Seq<&str>,
    texts: Seq<Seq<char>>,
    options: MatchOptions,
    threads: usize,
    n: int,
    i: int,
) -> (found: Seq<Hit>)
    requires
        hits::is_match_chain(rounds, parts, texts, options, threads),
        0 <= n < rounds.len(),
        0 <= i < rounds[n].len(),
    ensures
        found.len() == n + 1,
        tells_of(rounds[n][i], found),
        n + 1 == parts.len() ==> {
            let hit = hits::averaged(rounds[n][i], parts.len() as int);
            &&& hit.exact <==> forall|k: int| 0 <= k < found.len() ==> (#[trigger] found[k]).exact
            &&& hit.end_col == found[0].end_col
            &&& hit.index == found[0].index
        },
    decreases n,
{
    if n == 0 {
        let first = choose|first: Seq<Hit>| #[trigger]
            hits::may_match(
                parts[0]@,
                texts,
                options.values(),
                threads,
                hits::hit_values(first),
            ) && hits::hits_fit(first, texts.len()) && rounds[0] == hits::started(first);
        let found = seq![first[i]];
        assert(found[0] == first[i]);
        found
    } else {
        let prev = rounds[n - 1];
        assert(hits::follows(prev, rounds[n], parts[n]@, texts, options, threads));
        let again = choose|again: Seq<Hit>| #[trigger]
            hits::may_match(
                parts[n]@,
                hits::survivors(texts, prev),
                hits::capped(options, parts[n]@).values(),
                threads,
                hits::hit_values(again),
            ) && hits::hits_fit(again, prev.len()) && rounds[n] == hits::combined(prev, again);
        assert(again[i].index < prev.len());
        let before = law_every_part_has_its_hit(
            rounds,
            parts,
            texts,
            options,
            threads,
            n - 1,
            again[i].index as int,
        );
        let found = before.push(again[i]);
        let trail = rounds[n][i];
        let old_trail = prev[again[i].index as int];
        assert forall|k: int| 0 <= k < found.len() implies #[trigger] trail.scores[k]
            == found[k].score by {
            if k < n {
                assert(old_trail.scores[k] == before[k].score);
            }
        }
        if trail.exact {
            assert forall|k: int| 0 <= k < found.len() implies (#[trigger] found[k]).exact by {
                if k < n {
                    assert(before[k].exact);
                }
            }
        }
        if forall|k: int| 0 <= k < found.len() ==> (#[trigger] found[k]).exact {
            assert(found[n].exact);
            assert forall|k: int| 0 <= k < before.len() implies (#[trigger] before[k]).exact by {
                assert(found[k].exact);
            }
        }
        found
    }
}

/// Hits among the live rows keep all but their index, which becomes that of the
/// row among all.
pub proof fn law_hits_are_placed(found: Seq<Hit>, places: Seq<int>, i: int)
    requires
        0 <= i < found.len(),
        0 <= places[found[i].index as int] <= u32::MAX,
    ensures
        ({
            let r = files::placed(found, places);
            &&& r.len() == found.len()
            &&& r[i].index == places[found[i].index as int]
            &&& r[i].score == found[i].score
            &&& r[i].exact == found[i].exact
            &&& r[i].end_col == found[i].end_col
        }),
{
}

/// Paths of overlay files are read from the overlays' arena, those of the base
/// scan from its own.
pub proof fn law_arenas_are_those_of_the_layers(
    file: FileItem,
    base_arena: ArenaPtr<'_>,
    overflow_arena: ArenaPtr<'_>,
)
    ensures
        file.layer() == 0 ==> highlight::arena_of(file, base_arena, overflow_arena) == base_arena,
        file.layer() != 0 ==> highlight::arena_of(file, base_arena, overflow_arena)
            == overflow_arena,
{
}

/// Some part holds a separator.
pub open spec fn is_separated(parts: Seq<&str>, own: char) -> bool {
    exists|i: int, j: int|
        0 <= i < parts.len() && 0 <= j < parts[i]@.len() && ((#[trigger] parts[i]@[j]) == '/'
            || parts[i]@[j] == own)
}

/// A query is separated where some character of it is a separator.
pub proof fn law_separators_are_found(parts: Seq<&str>, own: char)
    ensures
        files::any_separator(parts, own) <==> is_separated(parts, own),
{
    if files::any_separator(parts, own) {
        let i = choose|i: int|
            0 <= i < parts.len() && files::holds_separator((#[trigger] parts[i])@, own);
        let text = parts[i]@;
        let j = choose|j: int| 0 <= j < text.len() && (text[j] == '/' || text[j] == own);
        assert(parts[i]@[j] == '/' || parts[i]@[j] == own);
    }
    if is_separated(parts, own) {
        let (i, j) = choose|i: int, j: int|
            0 <= i < parts.len() && 0 <= j < parts[i]@.len() && ((#[trigger] parts[i]@[j]) == '/'
                || parts[i]@[j] == own);
        assert(parts[i]@.contains(parts[i]@[j]));
        assert(files::holds_separator(parts[i]@, own));
    }
}

/// `x` tells how a file that was found came to its score.
pub open spec fn explains<'a>(
    x: ScoredFile<'_>,
    found: (&'a FileItem, Score),
    parts: Seq<&str>,
    context: ScoringContext<'_>,
    arena: ArenaPtr<'_>,
) -> bool {
    &&& x.holds()
    &&& x.file == *found.0
    &&& x.score == found.1
    &&& arena.store matches Some(store) && x.path == store.path(found.0.path)
    &&& x.needle == vstd::utf8::encode_utf8(parts[0]@)
    &&& x.has_separator == is_separated(parts, context.main_separator)
    &&& x.context == context
    &&& x.has_separator ==> x.by_name is None
}

/// Every hit is a row that is not deleted, and no row is hit twice.
pub proof fn law_only_live_rows_are_found(
    found: Seq<Hit>,
    rows: Seq<&FileItem>,
    parts: Seq<&str>,
    options: MatchOptions,
    threads: usize,
    arena: ArenaPtr<'_>,
)
    requires
        files::matches_rows(found, rows, parts, options, threads, arena),
        rows.len() < u32::MAX,
    ensures
        forall|i: int|
            0 <= i < found.len() ==> (#[trigger] found[i]).index < rows.len()
                && !rows[found[i].index as int].deleted(),
        forall|i: int, j: int|
            0 <= i < j < found.len() ==> (#[trigger] found[i]).index != (#[trigger] found[j]).index,
{
    let valid = hits::valid_parts(parts, parts.len() as int);
    let places = files::live_places(rows, rows.len() as int);
    files::lemma_live_places(rows, rows.len() as int);
    if valid.len() > 0 {
        let inner = choose|inner: Seq<Hit>| #[trigger]
            hits::matches_parts(
                inner,
                valid,
                files::texts_at(rows, places, arena),
                options,
                threads,
            ) && hits::hits_fit(inner, places.len()) && found == files::placed(inner, places);
        assert forall|i: int| 0 <= i < found.len() implies (#[trigger] found[i]).index < rows.len()
            && !rows[found[i].index as int].deleted() by {
            assert(inner[i].index < places.len());
        }
        assert forall|i: int, j: int| 0 <= i < j < found.len() implies (#[trigger] found[i]).index
            != (#[trigger] found[j]).index by {
            assert(inner[i].index != inner[j].index);
            assert(inner[i].index < places.len() && inner[j].index < places.len());
        }
    }
}

/// Every file that a search finds is one of the rows and live, and is scored by
/// its own path, for the first part of the query; where a part holds a
/// separator, names are not matched by themselves.
pub proof fn law_found_files_are_scored_by_their_paths<'a, 'b>(
    out: Seq<(&'a FileItem, Score)>,
    rows: Seq<&'a FileItem>,
    parts: Seq<&str>,
    context: ScoringContext<'b>,
    arena: ArenaPtr<'_>,
    i: int,
) -> (x: ScoredFile<'b>)
    requires
        files::is_search(out, rows, parts, context, arena),
        files::rows_readable(rows, arena),
        rows.len() < u32::MAX,
        formula::combo_fits(context),
        vstd::utf8::encode_utf8(parts[0]@).len() % 65536 > 0,
        0 <= i < out.len(),
    ensures
        explains(x, out[i], parts, context, arena),
        !out[i].0.deleted(),
        rows.contains(out[i].0),
{
    let options = hits::options_of(context.max_typos, hits::any_upper(parts));
    let separated = files::any_separator(parts, context.main_separator);
    let (found, named) = choose|found: Seq<Hit>, named: Seq<Hit>|
        #![trigger files::scored_hits(rows, found, named, parts, context, arena)]
        files::matches_rows(found, rows, parts, options, context.max_threads, arena)
            && files::matches_names(
            named,
            rows,
            found,
            parts,
            separated,
            options,
            context.max_threads,
            arena,
        ) && out == files::scored_hits(rows, found, named, parts, context, arena);
    law_only_live_rows_are_found(found, rows, parts, options, context.max_threads, arena);
    law_separators_are_found(parts, context.main_separator);
    let file = rows[found[i].index as int];
    assert(found[i].index < rows.len());
    assert(rows::readable(arena, *rows[found[i].index as int]));
    let places = files::name_candidates(rows, found, parts, separated);
    let len = formula::counted(hits::byte_len(parts[0]@));
    files::lemma_missed_names(rows, found, len, found.len() as int);
    let by_name = files::by_name(places, named, i);
    if by_name is Some {
        let p = choose|p: int| #[trigger] files::named_at(places, named, i, p);
        assert(named[p].index < places.len());
    }
    ScoredFile {
        file: *file,
        path: rows::path_in(arena, *file),
        hit: found[i],
        by_name,
        needle: vstd::utf8::encode_utf8(parts[0]@),
        has_separator: separated,
        context,
        score: out[i].1,
    }
}

proof fn lemma_marked(files: Seq<FileItem>, marks: Seq<bool>, at: int, n: int, x: int) -> (i: int)
    requires
        0 <= n <= files.len(),
        0 <= x < rows::marked_rows(files, marks, at, n).len(),
    ensures
        0 <= i < n,
        *rows::marked_rows(files, marks, at, n)[x] == files[i],
        marks[at + i],
    decreases n,
{
    let all = rows::marked_rows(files, marks, at, n);
    if marks[at + n - 1] && x == all.len() - 1 {
        n - 1
    } else {
        lemma_marked(files, marks, at, n - 1, x)
    }
}

proof fn lemma_kept(files: Seq<FileItem>, context: ScoringContext<'_>, at: int, x: int) -> (i: int)
    requires
        0 <= x < rows::kept_rows(files, context, at).len(),
    ensures
        0 <= i < files.len(),
        *rows::kept_rows(files, context, at)[x] == files[i],
        context.kept matches Some(marks) ==> marks@[at + i],
{
    match context.kept {
        None => x,
        Some(marks) => lemma_marked(files, marks@, at, files.len() as int, x),
    }
}

/// What a part of the table gives is a row of it that is live and meets the
/// constraints.
proof fn lemma_part<'a>(
    out: Seq<(&'a FileItem, Score)>,
    files: Seq<FileItem>,
    context: ScoringContext<'_>,
    at: int,
    arena: ArenaPtr<'_>,
    p: int,
) -> (i: int)
    requires
        files::is_part_result(out, files, context, at, arena),
        files.len() < u32::MAX,
        0 <= p < out.len(),
    ensures
        0 <= i < files.len(),
        *out[p].0 == files[i],
        !files[i].deleted(),
        context.kept matches Some(marks) ==> marks@[at + i],
{
    let kept = rows::kept_rows(files, context, at);
    rows::lemma_kept_rows(files, context, at);
    match files::query_parts(*context.query) {
        Some(parts) => {
            let options = hits::options_of(context.max_typos, hits::any_upper(parts));
            let separated = files::any_separator(parts, context.main_separator);
            let (found, named) = choose|found: Seq<Hit>, named: Seq<Hit>|
                #![trigger files::scored_hits(kept, found, named, parts, context, arena)]
                files::matches_rows(found, kept, parts, options, context.max_threads, arena)
                    && files::matches_names(
                    named,
                    kept,
                    found,
                    parts,
                    separated,
                    options,
                    context.max_threads,
                    arena,
                ) && out == files::scored_hits(kept, found, named, parts, context, arena);
            law_only_live_rows_are_found(found, kept, parts, options, context.max_threads, arena);
            assert(found[p].index < kept.len());
            lemma_kept(files, context, at, found[p].index as int)
        },
        None => {
            let live = rows::live_rows(kept, kept.len() as int);
            rows::lemma_live_rows(kept, kept.len() as int);
            assert(kept.contains(live[p]));
            let x = choose|x: int| 0 <= x < kept.len() && kept[x] == live[p];
            lemma_kept(files, context, at, x)
        },
    }
}

/// Every file on a page of a search is a row of the table that is live and meets
/// the constraints of the query at its own place in the table; as many are
/// counted as were found in the overlays and in the base scan.
pub proof fn law_shown_files_meet_the_constraints<'a>(
    items: Seq<&'a FileItem>,
    scores: Seq<Score>,
    total: int,
    files: Seq<FileItem>,
    context: ScoringContext<'_>,
    base_count: int,
    base_arena: ArenaPtr<'_>,
    overflow_arena: ArenaPtr<'_>,
    i: int,
) -> (k: int)
    requires
        files::is_ranked_search(
            items,
            scores,
            total,
            files,
            context,
            base_count,
            base_arena,
            overflow_arena,
        ),
        0 <= base_count <= files.len() < u32::MAX,
        0 <= i < items.len(),
    ensures
        0 <= k < files.len(),
        *items[i] == files[k],
        !files[k].deleted(),
        context.kept matches Some(marks) ==> marks@[k],
        items.len() <= total,
{
    let (over, base) = choose|
        over: Seq<(&'a FileItem, Score)>,
        base: Seq<(&'a FileItem, Score)>,
    |
        #![trigger files::is_part_result(over, files.skip(base_count), context, base_count, overflow_arena), files::is_part_result(base, files.take(base_count), context, 0, base_arena)]
        {
            &&& files::is_part_result(
                over,
                files.skip(base_count),
                context,
                base_count,
                overflow_arena,
            )
            &&& files::is_part_result(base, files.take(base_count), context, 0, base_arena)
            &&& total == over.len() + base.len()
            &&& paginate::is_page(
                over + base,
                FileRanking {  },
                context.pagination,
                items,
                scores,
            )
        };
    let results = over + base;
    let order = choose|order: Seq<usize>| #[trigger]
        sorting::is_stable_order(results, FileRanking {  }, order) && paginate::reads_page(
            results,
            order,
            context.pagination.offset as int,
            items,
            scores,
        );
    let p = order[context.pagination.offset + i] as int;
    assert(items[i] == results[p].0);
    assert(order[context.pagination.offset + i] < results.len());
    if p < over.len() {
        let x = lemma_part(
            over,
            files.skip(base_count),
            context,
            base_count,
            overflow_arena,
            p,
        );
        assert(files.skip(base_count)[x] == files[base_count + x]);
        base_count + x
    } else {
        lemma_part(base, files.take(base_count), context, 0, base_arena, p - over.len())
    }
}

/// Every file on a page of a fuzzy search is scored by its own path, read from
/// the arena of its part of the table, for the first part of the query.
pub proof fn law_shown_files_are_scored_by_their_paths<'a, 'b>(
    items: Seq<&'a FileItem>,
    scores: Seq<Score>,
    total: int,
    files: Seq<FileItem>,
    parts: Seq<&str>,
    context: ScoringContext<'b>,
    base_count: int,
    base_arena: ArenaPtr<'_>,
    overflow_arena: ArenaPtr<'_>,
    i: int,
) -> (r: (int, ScoredFile<'b>))
    requires
        files::is_ranked_search(
            items,
            scores,
            total,
            files,
            context,
            base_count,
            base_arena,
            overflow_arena,
        ),
        files::query_parts(*context.query) == Some(parts),
        0 <= base_count <= files.len() < u32::MAX,
        files::can_search(files.take(base_count), context, base_arena),
        files::can_search(files.skip(base_count), context, overflow_arena),
        0 <= i < items.len(),
    ensures
        0 <= r.0 < files.len(),
        *items[i] == files[r.0],
        r.0 < base_count ==> explains(r.1, (items[i], scores[i]), parts, context, base_arena),
        r.0 >= base_count ==> explains(r.1, (items[i], scores[i]), parts, context, overflow_arena),
{
    let (over, base) = choose|
        over: Seq<(&'a FileItem, Score)>,
        base: Seq<(&'a FileItem, Score)>,
    |
        #![trigger files::is_part_result(over, files.skip(base_count), context, base_count, overflow_arena), files::is_part_result(base, files.take(base_count), context, 0, base_arena)]
        {
            &&& files::is_part_result(
                over,
                files.skip(base_count),
                context,
                base_count,
                overflow_arena,
            )
            &&& files::is_part_result(base, files.take(base_count), context, 0, base_arena)
            &&& total == over.len() + base.len()
            &&& paginate::is_page(
                over + base,
                FileRanking {  },
                context.pagination,
                items,
                scores,
            )
        };
    let results = over + base;
    let order = choose|order: Seq<usize>| #[trigger]
        sorting::is_stable_order(results, FileRanking {  }, order) && paginate::reads_page(
            results,
            order,
            context.pagination.offset as int,
            items,
            scores,
        );
    let p = order[context.pagination.offset + i] as int;
    assert(items[i] == results[p].0 && scores[i] == results[p].1);
    assert(order[context.pagination.offset + i] < results.len());
    if p < over.len() {
        let part = files.skip(base_count);
        let x = lemma_part(over, part, context, base_count, overflow_arena, p);
        assert(part[x] == files[base_count + x]);
        assert(over[p] == (items[i], scores[i]));
        (base_count + x, lemma_part_scored(over, part, parts, context, base_count, overflow_arena, p))
    } else {
        let part = files.take(base_count);
        let q = p - over.len();
        let x = lemma_part(base, part, context, 0, base_arena, q);
        assert(base[q] == (items[i], scores[i]));
        (x, lemma_part_scored(base, part, parts, context, 0, base_arena, q))
    }
}

proof fn lemma_part_scored<'a, 'b>(
    out: Seq<(&'a FileItem, Score)>,
    files: Seq<FileItem>,
    parts: Seq<&str>,
    context: ScoringContext<'b>,
    at: int,
    arena: ArenaPtr<'_>,
    p: int,
) -> (x: ScoredFile<'b>)
    requires
        files::is_part_result(out, files, context, at, arena),
        files::query_parts(*context.query) == Some(parts),
        files::can_search(files, context, arena),
        0 <= p < out.len(),
    ensures
        explains(x, out[p], parts, context, arena),
{
    let kept = rows::kept_rows(files, context, at);
    rows::lemma_kept_rows(files, context, at);
    assert forall|k: int| 0 <= k < kept.len() implies rows::readable(
        arena,
        *#[trigger] kept[k],
    ) by {
        let j = lemma_kept(files, context, at, k);
        assert(rows::readable(arena, files[j]));
    }
    law_found_files_are_scored_by_their_paths(out, kept, parts, context, arena, p)
}

/// Every directory on a page of a fuzzy search is one of those that were
/// searched, scored by its own path for the first part of the query that is long
/// enough; as many are counted as were found.
pub proof fn law_shown_directories_are_scored_by_their_paths<'a, 'b>(
    items: Seq<&'a DirItem>,
    scores: Seq<Score>,
    total: int,
    dirs: Seq<&'a DirItem>,
    valid: Seq<&str>,
    context: ScoringContext<'b>,
    arena: ArenaPtr<'_>,
    overflow_arena: ArenaPtr<'_>,
    i: int,
) -> (x: ScoredDir<'b>)
    requires
        dirs::is_dir_search(
            items,
            scores,
            total,
            dirs,
            valid,
            context,
            arena,
            overflow_arena,
        ),
        dirs::dirs_readable(dirs, arena, overflow_arena),
        vstd::utf8::encode_utf8(valid[0]@).len() % 65536 > 0,
        0 <= i < items.len(),
    ensures
        items.len() <= total <= dirs.len(),
        dirs.contains(items[i]),
        x.holds(),
        x.dir == *items[i],
        x.score == scores[i],
        x.needle == vstd::utf8::encode_utf8(valid[0]@),
        x.context == context,
        items[i].layer() == 0 ==> x.path == arena.store->0.path(items[i].path),
        items[i].layer() != 0 ==> x.path == overflow_arena.store->0.path(items[i].path),
{
    let options = hits::options_of(context.max_typos, hits::any_upper(valid));
    let needle = vstd::utf8::encode_utf8(valid[0]@);
    let found = choose|found: Seq<Hit>| #[trigger]
        hits::matches_parts(
            found,
            valid,
            dirs::texts_in(dirs, arena, overflow_arena),
            options,
            context.max_threads,
        ) && hits::hits_fit(found, dirs.len()) && total == found.len() && paginate::is_page(
            dirs::scored_hits(dirs, found, needle, context, arena, overflow_arena),
            DirRanking {  },
            context.pagination,
            items,
            scores,
        );
    hits::lemma_hits_bounded(found, dirs.len());
    let results = dirs::scored_hits(dirs, found, needle, context, arena, overflow_arena);
    let order = choose|order: Seq<usize>| #[trigger]
        sorting::is_stable_order(results, DirRanking {  }, order) && paginate::reads_page(
            results,
            order,
            context.pagination.offset as int,
            items,
            scores,
        );
    let p = order[context.pagination.offset + i] as int;
    assert(items[i] == results[p].0 && scores[i] == results[p].1);
    assert(order[context.pagination.offset + i] < results.len());
    assert(found[p].index < dirs.len());
    law_found_directories_are_scored_by_their_paths(
        dirs,
        found,
        needle,
        context,
        arena,
        overflow_arena,
        p,
    )
}

/// Every directory that is found is one of those that were searched, and is
/// scored by its own path.
pub proof fn law_found_directories_are_scored_by_their_paths<'a, 'b>(
    dirs: Seq<&'a DirItem>,
    found: Seq<Hit>,
    needle: Seq<u8>,
    context: ScoringContext<'b>,
    arena: ArenaPtr<'_>,
    overflow_arena: ArenaPtr<'_>,
    i: int,
) -> (x: ScoredDir<'b>)
    requires
        hits::hits_fit(found, dirs.len()),
        dirs::dirs_readable(dirs, arena, overflow_arena),
        needle.len() % 65536 > 0,
        0 <= i < found.len(),
    ensures
        ({
            let out = dirs::scored_hits(dirs, found, needle, context, arena, overflow_arena);
            let from = if dirs[found[i].index as int].layer() == 0 {
                arena
            } else {
                overflow_arena
            };
            &&& out.len() == found.len()
            &&& out[i].0 == dirs[found[i].index as int]
            &&& x.holds()
            &&& x.dir == *out[i].0
            &&& x.hit == found[i]
            &&& x.path == from.store->0.path(out[i].0.path)
            &&& x.needle == needle
            &&& x.context == context
            &&& x.score == out[i].1
        }),
{
    let dir = dirs[found[i].index as int];
    assert(found[i].index < dirs.len());
    assert(dirs::readable(*dirs[found[i].index as int], arena, overflow_arena));
    ScoredDir {
        dir: *dir,
        path: dirs::path_in(*dir, arena, overflow_arena),
        hit: found[i],
        needle,
        context,
        score: dirs::scored_hits(dirs, found, needle, context, arena, overflow_arena)[i].1,
    }
}

/// Without a query a directory is worth what its uses are.
pub proof fn law_directories_without_a_query(dirs: Seq<&DirItem>, i: int)
    requires
        0 <= i < dirs.len(),
    ensures
        ({
            let out = dirs::frecency_rows(dirs);
            &&& out.len() == dirs.len()
            &&& out[i].0 == dirs[i]
            &&& out[i].1.total == dirs[i].max_access_frecency
            &&& out[i].1.frecency_boost == dirs[i].max_access_frecency
            &&& out[i].1.match_type == "frecency"
            &&& !out[i].1.exact_match
        }),
{
}

/// A name is matched by itself exactly where the hit lies in front of it, the
/// query has no separator, and not too many files were found.
pub proof fn law_missed_names_are_matched(
    rows: Seq<&FileItem>,
    found: Seq<Hit>,
    parts: Seq<&str>,
    separated: bool,
    i: int,
)
    requires
        0 <= i < found.len(),
        vstd::utf8::encode_utf8(parts[0]@).len() % 65536 > 0,
    ensures
        ({
            let len = vstd::utf8::encode_utf8(parts[0]@).len() % 65536;
            let name_at = rows[found[i].index as int].path.filename_offset;
            let missed = name_at > 0 && found[i].end_col + 1 < name_at + len;
            files::name_candidates(rows, found, parts, separated).contains(i) <==> missed
                && !separated && found.len() <= 15_000
        }),
{
    let len = formula::counted(hits::byte_len(parts[0]@));
    let all = files::missed_names(rows, found, len, found.len() as int);
    files::lemma_missed_names(rows, found, len, found.len() as int);
    if !formula::lands_in_name(found[i], *rows[found[i].index as int], len) {
        lemma_missed_all(rows, found, len, found.len() as int, i);
    }
    if all.contains(i) {
        let t = choose|t: int| 0 <= t < all.len() && all[t] == i;
        assert(!formula::lands_in_name(found[all[t]], *rows[found[all[t]].index as int], len));
    }
}

proof fn lemma_missed_all(rows: Seq<&FileItem>, found: Seq<Hit>, len: int, n: int, i: int)
    requires
        0 <= i < n <= found.len(),
        !formula::lands_in_name(found[i], *rows[found[i].index as int], len),
    ensures
        files::missed_names(rows, found, len, n).contains(i),
    decreases n,
{
    let all = files::missed_names(rows, found, len, n);
    if n - 1 > i {
        lemma_missed_all(rows, found, len, n - 1, i);
        let before = files::missed_names(rows, found, len, n - 1);
        let t = choose|t: int| 0 <= t < before.len() && before[t] == i;
        assert(all[t] == i);
    } else {
        assert(all[all.len() - 1] == i);
    }
}

} // verus!
