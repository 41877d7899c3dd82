//! Byte ranges to highlight in the results of a page.

use crate::bytes::Rank;
use crate::match_offsets;
use crate::match_offsets::{char_indices_to_byte_offsets, merge_byte_offsets, ByteRanges};
use crate::score::context::FFFQuery;
use crate::score::files;
use crate::score::files::fuzzy_parts;
use crate::score::hits;
use crate::score::hits::{cap_typos, keep_valid, match_list_indices, match_options, MatchOptions};
use crate::score::rows;
use crate::score::rows::read_file_text;
use crate::simd_path::ArenaPtr;
use crate::sorting;
use crate::sorting::Ranking;
use crate::types::FileItem;
use vstd::prelude::*;

verus! {

/// Numbers in ascending order.
pub struct NumberRanking {}

impl Ranking<u32> for NumberRanking {
    open spec fn admits(&self, a: u32) -> bool {
        true
    }

    open spec fn le(&self, a: u32, b: u32) -> bool {
        a <= b
    }

    proof fn total(&self, a: u32, b: u32) {
    }

    proof fn transitive(&self, a: u32, b: u32, c: u32) {
    }

    fn order(&self, a: &u32, b: &u32) -> Rank {
        if *a < *b {
            Rank::Before
        } else if *a > *b {
            Rank::After
        } else {
            Rank::Level
        }
    }
}

/// `sorted` holds the numbers in ascending order.
pub open spec fn is_sorted_form(numbers: Seq<u32>, sorted: Seq<u32>) -> bool {
    exists|order: Seq<usize>| #[trigger]
        sorting::is_stable_order(numbers, NumberRanking {  }, order) && sorted
            == sorting::permuted(numbers, order)
}

fn sort_numbers(numbers: &Vec<u32>) -> (r: Vec<u32>)
    ensures
        is_sorted_form(numbers@, r@),
        forall|i: int, j: int| 0 <= i < j < r@.len() ==> (#[trigger] r@[i]) <= (#[trigger] r@[j]),
{
    let ranking = NumberRanking {  };
    let order = sorting::stable_order(numbers.as_slice(), &ranking);
    let out = sorting::permute(numbers.as_slice(), &order);
    proof {
        sorting::lemma_stable_order_ranks(numbers@, ranking, order@);
        assert forall|i: int, j: int| 0 <= i < j < out@.len() implies (#[trigger] out@[i]) <= (
        #[trigger] out@[j]) by {
            assert(ranking.le(out@[i], out@[j]));
        }
    }
    out
}

/// The parts that are highlighted.
pub open spec fn shown_parts<'q>(query: FFFQuery<'q>) -> Seq<&'q str> {
    match files::query_parts(query) {
        Some(parts) => hits::valid_parts(parts, parts.len() as int),
        None => Seq::empty(),
    }
}

/// The arena that holds the path of the file.
pub open spec fn arena_of<'b>(
    file: FileItem,
    base_arena: ArenaPtr<'b>,
    overflow_arena: ArenaPtr<'b>,
) -> ArenaPtr<'b> {
    if file.layer() != 0 {
        overflow_arena
    } else {
        base_arena
    }
}

/// The paths of the page, as text.
pub open spec fn page_texts(
    items: Seq<&FileItem>,
    base_arena: ArenaPtr<'_>,
    overflow_arena: ArenaPtr<'_>,
) -> Seq<Seq<char>> {
    Seq::new(
        items.len(),
        |i: int| files::text_in(arena_of(*items[i], base_arena, overflow_arena), *items[i]),
    )
}

/// Options for part `k`: later parts take no more typos than they have bytes.
pub open spec fn part_options(options: MatchOptions, parts: Seq<&str>, k: int) -> MatchOptions {
    if k == 0 {
        options
    } else {
        hits::capped(options, parts[k]@)
    }
}

/// The characters found of text `i`, where some were.
pub open spec fn found_at(found: Seq<(u32, Seq<u32>)>, i: int, p: int) -> bool {
    0 <= p < found.len() && found[p].0 == i
}

/// The ranges of text `i` with those of another part behind them.
pub open spec fn with_part(
    ranges: Seq<(u32, u32)>,
    text: Seq<char>,
    found: Seq<(u32, Seq<u32>)>,
    i: int,
    after: Seq<(u32, u32)>,
) -> bool {
    if exists|p: int| #[trigger] found_at(found, i, p) {
        let p = choose|p: int| #[trigger] found_at(found, i, p);
        exists|sorted: Seq<u32>| #[trigger]
            is_sorted_form(found[p].1, sorted) && after == ranges + match_offsets::offsets_upto(
                text,
                sorted,
                sorted.len() as int,
            )
    } else {
        after == ranges
    }
}

/// The ranges of every text.
pub open spec fn all_ranges(ranges: Seq<ByteRanges>) -> Seq<Seq<(u32, u32)>> {
    Seq::new(ranges.len(), |i: int| match_offsets::byte_ranges(ranges[i]))
}

/// One part adds its ranges to each text that it is found in.
pub open spec fn adds_part(
    before: Seq<Seq<(u32, u32)>>,
    after: Seq<Seq<(u32, u32)>>,
    texts: Seq<Seq<char>>,
    part: Seq<char>,
    options: MatchOptions,
) -> bool {
    &&& before.len() == after.len() == texts.len()
    &&& exists|found: Seq<(u32, Seq<u32>)>| #[trigger]
        hits::may_locate(part, texts, options.values(), found) && forall|i: int|
            0 <= i < texts.len() ==> with_part(
                before[i],
                texts[i],
                found,
                i,
                #[trigger] after[i],
            )
}

/// The parts add their ranges one after another.
pub open spec fn is_part_chain(
    states: Seq<Seq<Seq<(u32, u32)>>>,
    texts: Seq<Seq<char>>,
    parts: Seq<&str>,
    options: MatchOptions,
) -> bool {
    &&& states.len() == parts.len() + 1
    &&& states[0] == Seq::new(texts.len(), |i: int| Seq::<(u32, u32)>::empty())
    &&& forall|k: int|
        1 <= k < states.len() ==> adds_part(
            states[k - 1],
            #[trigger] states[k],
            texts,
            parts[k - 1]@,
            part_options(options, parts, k - 1),
        )
}

/// `merged` covers what `ranges` cover, in ranges apart from each other; a
/// single range stays as it is.
pub open spec fn is_merged(ranges: Seq<(u32, u32)>, merged: Seq<(u32, u32)>) -> bool {
    if ranges.len() <= 1 {
        merged == ranges
    } else {
        &&& match_offsets::apart(merged)
        &&& forall|p: int| #[trigger]
            match_offsets::covers(merged, p) <==> match_offsets::covers(ranges, p)
    }
}

/// The ranges to highlight: those of all parts, merged.
pub open spec fn is_highlight(
    out: Seq<Seq<(u32, u32)>>,
    texts: Seq<Seq<char>>,
    parts: Seq<&str>,
    options: MatchOptions,
) -> bool {
    &&& out.len() == texts.len()
    &&& exists|states: Seq<Seq<Seq<(u32, u32)>>>| #[trigger]
        is_part_chain(states, texts, parts, options) && forall|i: int|
            0 <= i < out.len() ==> is_merged(states.last()[i], #[trigger] out[i])
}

/// Appends ranges.
fn extend(ranges: &mut ByteRanges, more: &ByteRanges)
    ensures
        match_offsets::byte_ranges(*final(ranges)) == match_offsets::byte_ranges(*old(ranges))
            + match_offsets::byte_ranges(*more),
{
    let ghost before = match_offsets::byte_ranges(*ranges);
    let list = more.as_slice();
    let mut i: usize = 0;
    assert(before =~= before + list@.take(0));
    while i < list.len()
        invariant
            i <= list@.len(),
            match_offsets::byte_ranges(*ranges) == before + list@.take(i as int),
        decreases list@.len() - i,
    {
        ranges.push(list[i]);
        assert(before + list@.take(i + 1) =~= (before + list@.take(i as int)).push(
            list@[i as int],
        ));
        i += 1;
    }
    assert(list@.take(list@.len() as int) =~= list@);
}

/// Reads the paths of the page.
fn read_page(items: &[&FileItem], base_arena: ArenaPtr<'_>, overflow_arena: ArenaPtr<'_>) -> (r:
    Vec<String>)
    requires
        forall|i: int|
            0 <= i < items@.len() ==> rows::readable(
                arena_of(*#[trigger] items@[i], base_arena, overflow_arena),
                *items@[i],
            ),
    ensures
        hits::texts_of(r@) == page_texts(items@, base_arena, overflow_arena),
        forall|i: int|
            0 <= i < r@.len() ==> vstd::utf8::encode_utf8((#[trigger] r@[i])@).len() <= u32::MAX,
{
    let mut out: Vec<String> = Vec::new();
    let mut i: usize = 0;
    while i < items.len()
        invariant
            i <= items@.len(),
            forall|k: int|
                0 <= k < items@.len() ==> rows::readable(
                    arena_of(*#[trigger] items@[k], base_arena, overflow_arena),
                    *items@[k],
                ),
            out@.len() == i,
            forall|k: int|
                0 <= k < i ==> (#[trigger] out@[k])@ == page_texts(
                    items@,
                    base_arena,
                    overflow_arena,
                )[k],
            forall|k: int|
                0 <= k < out@.len() ==> vstd::utf8::encode_utf8((#[trigger] out@[k])@).len()
                    <= u32::MAX,
        decreases items@.len() - i,
    {
        let item = items[i];
        assert(rows::readable(arena_of(*item, base_arena, overflow_arena), *item));
        let arena = if item.is_overflow() {
            overflow_arena
        } else {
            base_arena
        };
        let text = read_file_text(arena, item);
        proof {
            vstd::utf8::encode_utf8_decode_utf8(text@);
        }
        out.push(text);
        i += 1;
    }
    assert(hits::texts_of(out@) =~= page_texts(items@, base_arena, overflow_arena));
    out
}

/// Adds the ranges of the characters found, for every text.
pub fn add_found(ranges: &mut Vec<ByteRanges>, texts: &Vec<String>, found: &Vec<(u32, Vec<u32>)>)
    requires
        old(ranges)@.len() == texts@.len(),
        forall|i: int|
            0 <= i < texts@.len() ==> vstd::utf8::encode_utf8((#[trigger] texts@[i])@).len()
                <= u32::MAX,
        forall|i: int| 0 <= i < found@.len() ==> (#[trigger] found@[i]).0 < texts@.len(),
        forall|i: int, j: int|
            0 <= i < j < found@.len() ==> (#[trigger] found@[i]).0 < (#[trigger] found@[j]).0,
    ensures
        final(ranges)@.len() == old(ranges)@.len(),
        forall|i: int|
            0 <= i < texts@.len() ==> with_part(
                match_offsets::byte_ranges(old(ranges)@[i]),
                texts@[i]@,
                hits::located(found@),
                i,
                match_offsets::byte_ranges(#[trigger] final(ranges)@[i]),
            ),
{
    let ghost before = ranges@;
    let ghost values = hits::located(found@);
    let mut p: usize = 0;
    while p < found.len()
        invariant
            p <= found@.len(),
            values == hits::located(found@),
            before.len() == texts@.len(),
            ranges@.len() == texts@.len(),
            forall|i: int|
                0 <= i < texts@.len() ==> vstd::utf8::encode_utf8((#[trigger] texts@[i])@).len()
                    <= u32::MAX,
            forall|i: int| 0 <= i < found@.len() ==> (#[trigger] found@[i]).0 < texts@.len(),
            forall|i: int, j: int|
                0 <= i < j < found@.len() ==> (#[trigger] found@[i]).0 < (#[trigger] found@[j]).0,
            forall|i: int|
                0 <= i < texts@.len() && !(exists|q: int|
                    q < p && #[trigger] found_at(values, i, q)) ==> #[trigger] ranges@[i]
                    == before[i],
            forall|q: int|
                0 <= q < p ==> with_part(
                    match_offsets::byte_ranges(before[(#[trigger] values[q]).0 as int]),
                    texts@[values[q].0 as int]@,
                    values,
                    values[q].0 as int,
                    match_offsets::byte_ranges(ranges@[values[q].0 as int]),
                ),
        decreases found@.len() - p,
    {
        let ghost held = ranges@;
        let at: usize = found[p].0 as usize;
        assert(found@[p as int].0 < texts@.len());
        assert(values[p as int] == (found@[p as int].0, found@[p as int].1@));
        let sorted = sort_numbers(&found[p].1);
        let offsets = char_indices_to_byte_offsets(texts[at].as_str(), sorted.as_slice());
        proof {
            assert forall|q: int| q < p && found_at(values, at as int, q) implies false by {
                assert(values[q].0 == found@[q].0);
                assert(found@[q].0 < found@[p as int].0);
            }
            assert(!(exists|q: int| q < p && #[trigger] found_at(values, at as int, q)));
            assert(held[at as int] == before[at as int]);
        }
        extend(&mut ranges[at], &offsets);
        proof {
            assert(found_at(values, at as int, p as int));
            let chosen = choose|q: int| #[trigger] found_at(values, at as int, q);
            assert(chosen == p) by {
                assert(found_at(values, at as int, chosen));
                assert(values[chosen].0 == found@[chosen].0);
                if chosen < p {
                    assert(found@[chosen].0 < found@[p as int].0);
                } else if p < chosen {
                    assert(found@[p as int].0 < found@[chosen].0);
                }
            }
            assert(is_sorted_form(values[p as int].1, sorted@));
            assert(with_part(
                match_offsets::byte_ranges(before[at as int]),
                texts@[at as int]@,
                values,
                at as int,
                match_offsets::byte_ranges(ranges@[at as int]),
            ));
            assert forall|i: int|
                0 <= i < texts@.len() && !(exists|q: int|
                    q < p + 1 && #[trigger] found_at(values, i, q)) implies #[trigger] ranges@[i]
                == before[i] by {
                assert(i != at);
                assert(!(exists|q: int| q < p && #[trigger] found_at(values, i, q)));
                assert(held[i] == before[i]);
            }
            assert forall|q: int| 0 <= q < p + 1 implies with_part(
                match_offsets::byte_ranges(before[(#[trigger] values[q]).0 as int]),
                texts@[values[q].0 as int]@,
                values,
                values[q].0 as int,
                match_offsets::byte_ranges(ranges@[values[q].0 as int]),
            ) by {
                if q < p {
                    assert(found@[q].0 < found@[p as int].0);
                    assert(ranges@[values[q].0 as int] == held[values[q].0 as int]);
                }
            }
        }
        p += 1;
    }
    proof {
        assert forall|i: int| 0 <= i < texts@.len() implies with_part(
            match_offsets::byte_ranges(before[i]),
            texts@[i]@,
            values,
            i,
            match_offsets::byte_ranges(#[trigger] ranges@[i]),
        ) by {
            if exists|q: int| #[trigger] found_at(values, i, q) {
                let q = choose|q: int| #[trigger] found_at(values, i, q);
                assert(values[q].0 == i);
            } else {
                assert(!(exists|q: int| q < found@.len() && #[trigger] found_at(values, i, q)));
            }
        }
    }
}

/// Merges the ranges of every text.
fn merge_all(ranges: Vec<ByteRanges>) -> (r: Vec<ByteRanges>)
    ensures
        r@.len() == ranges@.len(),
        forall|i: int|
            0 <= i < r@.len() ==> is_merged(
                match_offsets::byte_ranges(ranges@[i]),
                match_offsets::byte_ranges(#[trigger] r@[i]),
            ),
{
    let ghost given = ranges@;
    let mut rest = ranges;
    let mut out: Vec<ByteRanges> = Vec::new();
    while rest.len() > 0
        invariant
            rest@.len() + out@.len() == given.len(),
            rest@ == given.take(rest@.len() as int),
            forall|i: int|
                0 <= i < out@.len() ==> is_merged(
                    match_offsets::byte_ranges(given[given.len() - 1 - i]),
                    match_offsets::byte_ranges(#[trigger] out@[i]),
                ),
        decreases rest@.len(),
    {
        match rest.pop() {
            Some(last) => {
                assert(last == given[given.len() - 1 - out@.len()]);
                assert(rest@ =~= given.take(rest@.len() as int));
                out.push(merge_byte_offsets(last));
            },
            None => {},
        }
    }
    let ghost backwards = out@;
    let mut r: Vec<ByteRanges> = Vec::new();
    while out.len() > 0
        invariant
            backwards.len() == given.len(),
            r@.len() + out@.len() == given.len(),
            out@ == backwards.take(out@.len() as int),
            forall|i: int|
                0 <= i < backwards.len() ==> is_merged(
                    match_offsets::byte_ranges(given[given.len() - 1 - i]),
                    match_offsets::byte_ranges(#[trigger] backwards[i]),
                ),
            forall|i: int|
                0 <= i < r@.len() ==> is_merged(
                    match_offsets::byte_ranges(given[i]),
                    match_offsets::byte_ranges(#[trigger] r@[i]),
                ),
        decreases out@.len(),
    {
        match out.pop() {
            Some(last) => {
                assert(last == backwards[given.len() - 1 - r@.len()]);
                assert(out@ =~= backwards.take(out@.len() as int));
                r.push(last);
            },
            None => {},
        }
    }
    r
}

/// Byte ranges to highlight in each file of a page. Parts of more bytes than
/// sixteen bits count cannot be located.
pub fn fuzzy_match_byte_offsets_for_page(
    query: &FFFQuery<'_>,
    items: &[&FileItem],
    max_typos: u16,
    base_arena: ArenaPtr<'_>,
    overflow_arena: ArenaPtr<'_>,
) -> (r: Vec<ByteRanges>)
    requires
        items@.len() <= u32::MAX,
        shown_parts(*query).len() > 0 ==> forall|i: int|
            0 <= i < items@.len() ==> rows::readable(
                arena_of(*#[trigger] items@[i], base_arena, overflow_arena),
                *items@[i],
            ),
        forall|k: int|
            0 <= k < shown_parts(*query).len() ==> hits::byte_len(
                (#[trigger] shown_parts(*query)[k])@,
            ) <= u16::MAX,
    ensures
        r@.len() == items@.len(),
        ({
            let parts = shown_parts(*query);
            if parts.len() == 0 {
                forall|i: int|
                    0 <= i < r@.len() ==> match_offsets::byte_ranges(#[trigger] r@[i]).len() == 0
            } else {
                is_highlight(
                    all_ranges(r@),
                    page_texts(items@, base_arena, overflow_arena),
                    parts,
                    hits::options_of(max_typos, hits::any_upper(parts)),
                )
            }
        }),
{
    let mut ranges: Vec<ByteRanges> = Vec::new();
    let mut i: usize = 0;
    while i < items.len()
        invariant
            i <= items@.len(),
            ranges@.len() == i,
            forall|k: int|
                0 <= k < i ==> match_offsets::byte_ranges(#[trigger] ranges@[k]).len() == 0,
        decreases items@.len() - i,
    {
        ranges.push(ByteRanges::new());
        i += 1;
    }
    let parts = match fuzzy_parts(query) {
        Some(parts) => keep_valid(parts.as_slice()),
        None => {
            return ranges;
        },
    };
    if parts.len() == 0 {
        return ranges;
    }
    let texts = read_page(items, base_arena, overflow_arena);
    let ghost all = page_texts(items@, base_arena, overflow_arena);
    let options = match_options(parts.as_slice(), max_typos);
    let ghost mut states: Seq<Seq<Seq<(u32, u32)>>> = seq![all_ranges(ranges@)];
    proof {
        assert(hits::texts_of(texts@).len() == texts@.len());
        assert(all_ranges(ranges@) =~= Seq::new(all.len(), |i: int| Seq::<(u32, u32)>::empty()))
            by {
            assert forall|i: int| 0 <= i < all.len() implies all_ranges(ranges@)[i] == Seq::<
                (u32, u32),
            >::empty() by {
                assert(match_offsets::byte_ranges(ranges@[i]).len() == 0);
            }
        }
    }
    let mut k: usize = 0;
    while k < parts.len()
        invariant
            k <= parts@.len(),
            all == hits::texts_of(texts@),
            texts@.len() == ranges@.len() == all.len(),
            all.len() <= u32::MAX,
            forall|i: int|
                0 <= i < texts@.len() ==> vstd::utf8::encode_utf8((#[trigger] texts@[i])@).len()
                    <= u32::MAX,
            forall|j: int|
                0 <= j < parts@.len() ==> hits::byte_len((#[trigger] parts@[j])@) <= u16::MAX,
            states.len() == k + 1,
            states[0] == Seq::new(all.len(), |i: int| Seq::<(u32, u32)>::empty()),
            states.last() == all_ranges(ranges@),
            forall|j: int|
                1 <= j < states.len() ==> adds_part(
                    states[j - 1],
                    #[trigger] states[j],
                    all,
                    parts@[j - 1]@,
                    part_options(options, parts@, j - 1),
                ),
        decreases parts@.len() - k,
    {
        let ghost held = ranges@;
        let part = parts[k];
        let chosen = if k > 0 {
            cap_typos(options, part)
        } else {
            options
        };
        let found = match_list_indices(part, &texts, chosen);
        add_found(&mut ranges, &texts, &found);
        proof {
            let next = all_ranges(ranges@);
            let values = hits::located(found@);
            assert(hits::may_locate(
                part@,
                all,
                part_options(options, parts@, k as int).values(),
                values,
            ));
            assert forall|i: int| 0 <= i < all.len() implies with_part(
                all_ranges(held)[i],
                all[i],
                values,
                i,
                #[trigger] next[i],
            ) by {
                assert(next[i] == match_offsets::byte_ranges(ranges@[i]));
                assert(all[i] == texts@[i]@);
            }
            assert(adds_part(
                all_ranges(held),
                next,
                all,
                part@,
                part_options(options, parts@, k as int),
            ));
            states = states.push(next);
        }
        k += 1;
    }
    let ghost last = ranges@;
    let out = merge_all(ranges);
    proof {
        assert(is_part_chain(states, all, parts@, options));
        assert forall|i: int| 0 <= i < all_ranges(out@).len() implies is_merged(
            states.last()[i],
            #[trigger] all_ranges(out@)[i],
        ) by {
            assert(is_merged(
                match_offsets::byte_ranges(last[i]),
                match_offsets::byte_ranges(out@[i]),
            ));
        }
        assert(is_highlight(all_ranges(out@), all, parts@, options));
    }
    out
}

} // verus!
