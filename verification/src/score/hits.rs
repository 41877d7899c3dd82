//! Fuzzy matching of texts, through `neo_frizbee`.

use vstd::prelude::*;

verus! {

/// One text that a needle was found in.
#[derive(Clone, Copy, Debug)]
pub struct Hit {
    /// Place of the text in the list.
    pub index: u32,
    pub score: u16,
    /// The text is the needle.
    pub exact: bool,
    /// Byte at which the best alignment ends.
    pub end_col: u16,
}

/// What matching depends on besides the texts.
#[derive(Clone, Copy, Debug)]
pub struct MatchOptions {
    pub max_typos: u16,
    pub capitalization_bonus: u16,
    pub matching_case_bonus: u16,
}

impl MatchOptions {
    pub open spec fn values(self) -> (u16, u16, u16) {
        (self.max_typos, self.capitalization_bonus, self.matching_case_bonus)
    }
}

pub open spec fn hit_values(hits: Seq<Hit>) -> Seq<(u32, u16, bool, u16)> {
    Seq::new(
        hits.len(),
        |i: int| (hits[i].index, hits[i].score, hits[i].exact, hits[i].end_col),
    )
}

/// The texts, as characters.
pub open spec fn texts_of(texts: Seq<String>) -> Seq<Seq<char>> {
    Seq::new(texts.len(), |i: int| texts[i]@)
}

/// Every byte of the texts has a place that is counted in thirty-two bits.
pub open spec fn all_fit(texts: Seq<Seq<char>>) -> bool {
    forall|i: int| 0 <= i < texts.len() ==> vstd::utf8::encode_utf8(#[trigger] texts[i]).len() <= u32::MAX
}

/// `hits` is something that `neo_frizbee::Matcher::match_list_parallel` can give
/// for these arguments on some machine: scores and end columns vary with the
/// vector width of the processor, and the order with how threads get on.
pub uninterp spec fn may_match(
    needle: Seq<char>,
    haystacks: Seq<Seq<char>>,
    options: (u16, u16, u16),
    threads: usize,
    hits: Seq<(u32, u16, bool, u16)>,
) -> bool;

/// `found` is something that `neo_frizbee::Matcher::match_list_indices` can give
/// for these arguments on some machine: the alignment varies with the vector
/// width of the processor.
pub uninterp spec fn may_locate(
    needle: Seq<char>,
    haystacks: Seq<Seq<char>>,
    options: (u16, u16, u16),
    found: Seq<(u32, Seq<u32>)>,
) -> bool;

/// Whether Unicode counts the character as upper case.
pub uninterp spec fn is_upper(c: char) -> bool;

/// `char::is_uppercase`: a property of the character alone.
pub assume_specification [char::is_uppercase] (c: char) -> (r: bool)
    ensures
        r == is_upper(c),
;

/// Every hit is for another text of the list.
pub open spec fn hits_fit(hits: Seq<Hit>, len: nat) -> bool {
    &&& forall|i: int| 0 <= i < hits.len() ==> (#[trigger] hits[i]).index < len
    &&& forall|i: int, j: int|
        0 <= i < j < hits.len() ==> (#[trigger] hits[i]).index != (#[trigger] hits[j]).index
}

/// Only texts that are the needle are marked as such.
pub open spec fn exact_is_needle(hits: Seq<Hit>, texts: Seq<Seq<char>>, needle: Seq<char>) -> bool {
    forall|i: int|
        0 <= i < hits.len() && (#[trigger] hits[i]).exact ==> texts[hits[i].index as int] == needle
}

/// Hits come in the order of the texts.
pub open spec fn in_text_order(hits: Seq<Hit>) -> bool {
    forall|i: int, j: int|
        0 <= i < j < hits.len() ==> (#[trigger] hits[i]).index < (#[trigger] hits[j]).index
}

/// Finds a needle in a list of texts: `neo_frizbee::Matcher::new` and
/// `match_list_parallel`, unsorted. Each text is hit once at most, one that is
/// marked exact is the needle, and a single thread goes through the texts in
/// order. Scores are not stated: they vary with the processor. Texts are counted
/// in thirty-two bits, one past the last: with as many of them as that holds the
/// count would overflow and, where that is checked, panic.
#[verifier::external_body]
fn find_in(needle: &str, texts: &[String], options: MatchOptions, threads: usize) -> (hits: Vec<Hit>)
    requires
        texts@.len() < u32::MAX,
    ensures
        may_match(needle@, texts_of(texts@), options.values(), threads, hit_values(hits@)),
        hits_fit(hits@, texts@.len()),
        exact_is_needle(hits@, texts_of(texts@), needle@),
        threads == 1 ==> in_text_order(hits@),
{
    let config = neo_frizbee::Config {
        max_typos: Some(options.max_typos),
        sort: neo_frizbee::SortStrategy::Unsorted,
        scoring: neo_frizbee::Scoring {
            capitalization_bonus: options.capitalization_bonus,
            matching_case_bonus: options.matching_case_bonus,
            ..Default::default()
        },
        ..Default::default()
    };
    let matches = neo_frizbee::Matcher::new(needle, &config).match_list_parallel(texts, threads);
    matches.iter().map(|m| Hit { index: m.index, score: m.score, exact: m.exact, end_col: m.end_col }).collect()
}

/// The places found, as values.
pub open spec fn located(found: Seq<(u32, Vec<u32>)>) -> Seq<(u32, Seq<u32>)> {
    Seq::new(found.len(), |i: int| (found[i].0, found[i].1@))
}

/// Finds out which characters of the texts a needle matches:
/// `neo_frizbee::Matcher::new` and `match_list_indices`, unsorted. Texts come in
/// order. Which characters are found is not stated: it varies with the
/// processor. A place in a text of more than thirty-two bits would make it
/// panic, and so would, where overflow is checked, a needle of more bytes than
/// its count of typos can hold, which has sixteen bits.
#[verifier::external_body]
fn locate_in(needle: &str, texts: &[String], options: MatchOptions) -> (found: Vec<(u32, Vec<u32>)>)
    requires
        texts@.len() <= u32::MAX,
        all_fit(texts_of(texts@)),
        byte_len(needle@) <= u16::MAX,
    ensures
        may_locate(needle@, texts_of(texts@), options.values(), located(found@)),
        forall|i: int| 0 <= i < found@.len() ==> (#[trigger] found@[i]).0 < texts@.len(),
        forall|i: int, j: int|
            0 <= i < j < found@.len() ==> (#[trigger] found@[i]).0 < (#[trigger] found@[j]).0,
{
    let config = neo_frizbee::Config {
        max_typos: Some(options.max_typos),
        sort: neo_frizbee::SortStrategy::Unsorted,
        scoring: neo_frizbee::Scoring {
            capitalization_bonus: options.capitalization_bonus,
            matching_case_bonus: options.matching_case_bonus,
            ..Default::default()
        },
        ..Default::default()
    };
    let matches = neo_frizbee::Matcher::new(needle, &config).match_list_indices(texts);
    matches.into_iter().map(|m| (m.index, m.indices)).collect()
}

/// Finds a needle in a list of texts.
pub fn match_list(needle: &str, texts: &Vec<String>, options: MatchOptions, threads: usize) -> (hits:
    Vec<Hit>)
    requires
        texts@.len() < u32::MAX,
    ensures
        may_match(needle@, texts_of(texts@), options.values(), threads, hit_values(hits@)),
        hits_fit(hits@, texts@.len()),
        exact_is_needle(hits@, texts_of(texts@), needle@),
        threads == 1 ==> in_text_order(hits@),
{
    find_in(needle, texts.as_slice(), options, threads)
}

/// Finds out which characters of the texts a needle matches.
pub fn match_list_indices(needle: &str, texts: &Vec<String>, options: MatchOptions) -> (found: Vec<
    (u32, Vec<u32>),
>)
    requires
        texts@.len() <= u32::MAX,
        all_fit(texts_of(texts@)),
        byte_len(needle@) <= u16::MAX,
    ensures
        may_locate(needle@, texts_of(texts@), options.values(), located(found@)),
        forall|i: int| 0 <= i < found@.len() ==> (#[trigger] found@[i]).0 < texts@.len(),
        forall|i: int, j: int|
            0 <= i < j < found@.len() ==> (#[trigger] found@[i]).0 < (#[trigger] found@[j]).0,
{
    locate_in(needle, texts.as_slice(), options)
}

/// Some character of the text is in upper case.
pub open spec fn has_upper(text: Seq<char>) -> bool {
    exists|i: int| 0 <= i < text.len() && is_upper(#[trigger] text[i])
}

/// Some part holds a character in upper case.
pub open spec fn any_upper(parts: Seq<&str>) -> bool {
    exists|i: int| 0 <= i < parts.len() && has_upper((#[trigger] parts[i])@)
}

fn text_has_upper(text: &str) -> (r: bool)
    ensures
        r == has_upper(text@),
{
    broadcast use vstd::string::axiom_spec_iter;

    let mut found: bool = false;
    for c in it: text.chars()
        invariant
            it.seq() == text@,
            found == exists|i: int| 0 <= i < it.index() && is_upper(#[trigger] text@[i]),
    {
        let upper = c.is_uppercase();
        assert(c == text@[it.index()]);
        if upper {
            found = true;
        }
    }
    found
}

pub fn has_uppercase(parts: &[&str]) -> (r: bool)
    ensures
        r == any_upper(parts@),
{
    let mut i: usize = 0;
    while i < parts.len()
        invariant
            i <= parts@.len(),
            forall|k: int| 0 <= k < i ==> !has_upper((#[trigger] parts@[k])@),
        decreases parts@.len() - i,
    {
        if text_has_upper(parts[i]) {
            return true;
        }
        i += 1;
    }
    false
}

/// Case counts for something only where the query makes use of it.
pub open spec fn options_of(max_typos: u16, upper: bool) -> MatchOptions {
    MatchOptions {
        max_typos,
        capitalization_bonus: if upper {
            8
        } else {
            0
        },
        matching_case_bonus: if upper {
            4
        } else {
            0
        },
    }
}

pub fn match_options(parts: &[&str], max_typos: u16) -> (r: MatchOptions)
    ensures
        r == options_of(max_typos, any_upper(parts@)),
{
    if has_uppercase(parts) {
        MatchOptions { max_typos, capitalization_bonus: 8, matching_case_bonus: 4 }
    } else {
        MatchOptions { max_typos, capitalization_bonus: 0, matching_case_bonus: 0 }
    }
}

/// Bytes of a text.
pub open spec fn byte_len(text: Seq<char>) -> int {
    vstd::utf8::encode_utf8(text).len() as int
}

/// No more typos than a part has bytes, counted in sixteen bits.
pub open spec fn capped(options: MatchOptions, part: Seq<char>) -> MatchOptions {
    let len = byte_len(part) % 65536;
    MatchOptions {
        max_typos: if options.max_typos <= len {
            options.max_typos
        } else {
            len as u16
        },
        ..options
    }
}

pub fn cap_typos(options: MatchOptions, part: &str) -> (r: MatchOptions)
    ensures
        r == capped(options, part@),
{
    let bytes = part.as_bytes();
    let len: u16 = (bytes.len() % 65536) as u16;
    let max_typos: u16 = if options.max_typos <= len {
        options.max_typos
    } else {
        len
    };
    MatchOptions {
        max_typos,
        capitalization_bonus: options.capitalization_bonus,
        matching_case_bonus: options.matching_case_bonus,
    }
}

/// A text that every part so far hit.
pub struct Trail {
    pub index: u32,
    /// The score of each part, in order.
    pub scores: Seq<u16>,
    /// Every part is the text.
    pub exact: bool,
    /// Byte at which the match of the first part ends.
    pub end_col: u16,
}

/// A trail with its scores added up.
#[derive(Clone, Copy, Debug)]
pub struct Tally {
    pub index: u32,
    pub sum: u128,
    pub exact: bool,
    pub end_col: u16,
}

pub open spec fn sum_of(scores: Seq<u16>) -> nat
    decreases scores.len(),
{
    if scores.len() == 0 {
        0
    } else {
        sum_of(scores.drop_last()) + scores.last() as nat
    }
}

proof fn lemma_sum_bound(scores: Seq<u16>)
    ensures
        sum_of(scores) <= 65535 * scores.len(),
    decreases scores.len(),
{
    if scores.len() > 0 {
        lemma_sum_bound(scores.drop_last());
    }
}

/// The tallies are those of the trails.
pub open spec fn tallies(sums: Seq<Tally>, trails: Seq<Trail>) -> bool {
    &&& sums.len() == trails.len()
    &&& forall|i: int|
        0 <= i < sums.len() ==> (#[trigger] sums[i]).index == trails[i].index && sums[i].sum
            == sum_of(trails[i].scores) && sums[i].exact == trails[i].exact && sums[i].end_col
            == trails[i].end_col
}

/// Each trail holds a score for each of `n` parts.
pub open spec fn all_scored(trails: Seq<Trail>, n: int) -> bool {
    forall|i: int| 0 <= i < trails.len() ==> (#[trigger] trails[i]).scores.len() == n
}

/// Every trail is for another text of the list.
pub open spec fn trails_fit(trails: Seq<Trail>, len: nat) -> bool {
    &&& forall|i: int| 0 <= i < trails.len() ==> (#[trigger] trails[i]).index < len
    &&& forall|i: int, j: int|
        0 <= i < j < trails.len() ==> (#[trigger] trails[i]).index != (#[trigger] trails[j]).index
}

/// Hits of the first part.
pub open spec fn started(hits: Seq<Hit>) -> Seq<Trail> {
    Seq::new(
        hits.len(),
        |i: int|
            Trail {
                index: hits[i].index,
                scores: seq![hits[i].score],
                exact: hits[i].exact,
                end_col: hits[i].end_col,
            },
    )
}

/// A trail that another part hit again: the place is that of the first.
pub open spec fn extended(trail: Trail, again: Hit) -> Trail {
    Trail {
        index: trail.index,
        scores: trail.scores.push(again.score),
        exact: trail.exact && again.exact,
        end_col: trail.end_col,
    }
}

/// The trails that were hit again.
pub open spec fn combined(prev: Seq<Trail>, again: Seq<Hit>) -> Seq<Trail> {
    Seq::new(again.len(), |j: int| extended(prev[again[j].index as int], again[j]))
}

/// The hit of `total_parts` parts: its score is the average of theirs.
pub open spec fn averaged(trail: Trail, total_parts: int) -> Hit {
    Hit {
        index: trail.index,
        score: (sum_of(trail.scores) as int / total_parts) as u16,
        exact: trail.exact,
        end_col: trail.end_col,
    }
}

pub open spec fn all_averaged(trails: Seq<Trail>, total_parts: int) -> Seq<Hit> {
    Seq::new(trails.len(), |i: int| averaged(trails[i], total_parts))
}

/// The tally of a hit of the first part.
pub open spec fn opened(hit: Hit) -> Tally {
    Tally { index: hit.index, sum: hit.score as u128, exact: hit.exact, end_col: hit.end_col }
}

/// A tally that another part hit again.
pub open spec fn raised(tally: Tally, again: Hit) -> Tally {
    Tally {
        index: tally.index,
        sum: (tally.sum + again.score) as u128,
        exact: tally.exact && again.exact,
        end_col: tally.end_col,
    }
}

/// The hit that shares the sum among `total_parts` parts.
pub open spec fn shared(tally: Tally, total_parts: usize) -> Hit {
    Hit {
        index: tally.index,
        score: (tally.sum / total_parts as u128) as u16,
        exact: tally.exact,
        end_col: tally.end_col,
    }
}

/// Opens a tally for every hit of the first part.
pub fn open_tallies(hits: &Vec<Hit>) -> (r: Vec<Tally>)
    ensures
        r@ == Seq::new(hits@.len(), |i: int| opened(hits@[i])),
{
    let mut out: Vec<Tally> = Vec::new();
    let mut i: usize = 0;
    while i < hits.len()
        invariant
            i <= hits@.len(),
            out@.len() == i,
            forall|k: int| 0 <= k < i ==> #[trigger] out@[k] == opened(hits@[k]),
        decreases hits@.len() - i,
    {
        let hit: Hit = hits[i];
        out.push(
            Tally {
                index: hit.index,
                sum: hit.score as u128,
                exact: hit.exact,
                end_col: hit.end_col,
            },
        );
        i += 1;
    }
    assert(out@ =~= Seq::new(hits@.len(), |i: int| opened(hits@[i])));
    out
}

/// Maps hits among the survivors of a round back to the list they came from,
/// and adds their scores.
pub fn combine_hits(prev: &Vec<Tally>, again: &Vec<Hit>) -> (r: Vec<Tally>)
    requires
        hits_fit(again@, prev@.len()),
        forall|i: int|
            0 <= i < prev@.len() ==> (#[trigger] prev@[i]).sum + u16::MAX <= u128::MAX,
    ensures
        r@ == Seq::new(again@.len(), |j: int| raised(prev@[again@[j].index as int], again@[j])),
{
    let mut out: Vec<Tally> = Vec::new();
    let mut j: usize = 0;
    while j < again.len()
        invariant
            j <= again@.len(),
            hits_fit(again@, prev@.len()),
            forall|i: int|
                0 <= i < prev@.len() ==> (#[trigger] prev@[i]).sum + u16::MAX <= u128::MAX,
            out@.len() == j,
            forall|k: int|
                0 <= k < j ==> #[trigger] out@[k] == raised(
                    prev@[again@[k].index as int],
                    again@[k],
                ),
        decreases again@.len() - j,
    {
        let hit: Hit = again[j];
        assert(again@[j as int].index < prev@.len());
        let first: Tally = prev[hit.index as usize];
        out.push(
            Tally {
                index: first.index,
                sum: first.sum + hit.score as u128,
                exact: first.exact && hit.exact,
                end_col: first.end_col,
            },
        );
        j += 1;
    }
    assert(out@ =~= Seq::new(
        again@.len(),
        |j: int| raised(prev@[again@[j].index as int], again@[j]),
    ));
    out
}

/// Shares the sums among all parts.
pub fn average_tallies(sums: &Vec<Tally>, total_parts: usize) -> (r: Vec<Hit>)
    requires
        total_parts > 0,
        forall|i: int| 0 <= i < sums@.len() ==> (#[trigger] sums@[i]).sum <= u16::MAX * total_parts,
    ensures
        r@ == Seq::new(sums@.len(), |i: int| shared(sums@[i], total_parts)),
{
    let mut out: Vec<Hit> = Vec::new();
    let mut i: usize = 0;
    while i < sums.len()
        invariant
            total_parts > 0,
            forall|i: int|
                0 <= i < sums@.len() ==> (#[trigger] sums@[i]).sum <= u16::MAX * total_parts,
            i <= sums@.len(),
            out@.len() == i,
            forall|k: int| 0 <= k < i ==> #[trigger] out@[k] == shared(sums@[k], total_parts),
        decreases sums@.len() - i,
    {
        let tally: Tally = sums[i];
        let average: u128 = tally.sum / total_parts as u128;
        assert(average <= 65535) by (nonlinear_arith)
            requires
                average == tally.sum / (total_parts as u128),
                tally.sum <= 65535 * total_parts,
                total_parts > 0,
        ;
        out.push(
            Hit {
                index: tally.index,
                score: average as u16,
                exact: tally.exact,
                end_col: tally.end_col,
            },
        );
        i += 1;
    }
    assert(out@ =~= Seq::new(sums@.len(), |i: int| shared(sums@[i], total_parts)));
    out
}

proof fn lemma_opened(sums: Seq<Tally>, hits: Seq<Hit>)
    requires
        sums == Seq::new(hits.len(), |i: int| opened(hits[i])),
    ensures
        tallies(sums, started(hits)),
{
    let trails = started(hits);
    assert forall|k: int| 0 <= k < sums.len() implies (#[trigger] sums[k]).sum == sum_of(
        trails[k].scores,
    ) by {
        reveal_with_fuel(sum_of, 2);
        assert(trails[k].scores.drop_last() =~= Seq::<u16>::empty());
    }
}

/// No sum of so many scores comes near the limit.
proof fn lemma_sums_bound(sums: Seq<Tally>, trails: Seq<Trail>, rounds: int)
    requires
        tallies(sums, trails),
        all_scored(trails, rounds),
    ensures
        forall|i: int| 0 <= i < sums.len() ==> (#[trigger] sums[i]).sum <= 65535 * rounds,
{
    assert forall|i: int| 0 <= i < sums.len() implies (#[trigger] sums[i]).sum <= 65535 * rounds by {
        lemma_sum_bound(trails[i].scores);
    }
}

proof fn lemma_raised(
    prev: Seq<Tally>,
    sums: Seq<Tally>,
    again: Seq<Hit>,
    trails: Seq<Trail>,
    rounds: int,
)
    requires
        tallies(prev, trails),
        all_scored(trails, rounds),
        rounds <= usize::MAX,
        hits_fit(again, prev.len()),
        sums == Seq::new(again.len(), |j: int| raised(prev[again[j].index as int], again[j])),
    ensures
        tallies(sums, combined(trails, again)),
{
    let next = combined(trails, again);
    lemma_sums_bound(prev, trails, rounds);
    assert forall|j: int| 0 <= j < sums.len() implies (#[trigger] sums[j]).index == next[j].index
        && sums[j].sum == sum_of(next[j].scores) && sums[j].exact == next[j].exact
        && sums[j].end_col == next[j].end_col by {
        let i = again[j].index as int;
        assert(again[j].index < prev.len());
        assert(prev[i].index == trails[i].index);
        assert(trails[i].scores.push(again[j].score).drop_last() =~= trails[i].scores);
    }
}

proof fn lemma_shared(sums: Seq<Tally>, hits: Seq<Hit>, trails: Seq<Trail>, total_parts: usize)
    requires
        tallies(sums, trails),
        hits == Seq::new(sums.len(), |i: int| shared(sums[i], total_parts)),
    ensures
        hits == all_averaged(trails, total_parts as int),
{
    assert(hits =~= all_averaged(trails, total_parts as int)) by {
        assert forall|i: int| 0 <= i < hits.len() implies hits[i] == averaged(
            trails[i],
            total_parts as int,
        ) by {
            assert(sums[i].index == trails[i].index);
        }
    }
}

/// The texts that were hit.
pub open spec fn survivors(texts: Seq<Seq<char>>, trails: Seq<Trail>) -> Seq<Seq<char>> {
    Seq::new(trails.len(), |i: int| texts[trails[i].index as int])
}

/// The parts that are long enough to be matched.
pub open spec fn valid_parts<'a>(parts: Seq<&'a str>, n: int) -> Seq<&'a str>
    decreases n,
{
    if n <= 0 {
        Seq::empty()
    } else if byte_len(parts[n - 1]@) >= 2 {
        valid_parts(parts, n - 1).push(parts[n - 1])
    } else {
        valid_parts(parts, n - 1)
    }
}

pub fn keep_valid<'a>(parts: &[&'a str]) -> (r: Vec<&'a str>)
    ensures
        r@ == valid_parts(parts@, parts@.len() as int),
{
    let mut out: Vec<&'a str> = Vec::new();
    let mut i: usize = 0;
    while i < parts.len()
        invariant
            i <= parts@.len(),
            out@ == valid_parts(parts@, i as int),
        decreases parts@.len() - i,
    {
        let bytes = parts[i].as_bytes();
        if bytes.len() >= 2 {
            out.push(parts[i]);
        }
        i += 1;
    }
    out
}

/// `trails` are what is left of `prev` once another part was matched too.
pub open spec fn follows(
    prev: Seq<Trail>,
    trails: Seq<Trail>,
    part: Seq<char>,
    texts: Seq<Seq<char>>,
    options: MatchOptions,
    threads: usize,
) -> bool {
    exists|again: Seq<Hit>| #[trigger]
        may_match(
            part,
            survivors(texts, prev),
            capped(options, part).values(),
            threads,
            hit_values(again),
        ) && hits_fit(again, prev.len()) && trails == combined(prev, again)
}

/// `trails` are the hits of the first part.
pub open spec fn starts(
    trails: Seq<Trail>,
    part: Seq<char>,
    texts: Seq<Seq<char>>,
    options: MatchOptions,
    threads: usize,
) -> bool {
    exists|hits: Seq<Hit>| #[trigger]
        may_match(part, texts, options.values(), threads, hit_values(hits)) && hits_fit(
            hits,
            texts.len(),
        ) && trails == started(hits)
}

/// Each part narrows down what the parts before it hit. Nothing is left to do
/// once nothing is hit.
pub open spec fn is_match_chain(
    rounds: Seq<Seq<Trail>>,
    parts: Seq<&str>,
    texts: Seq<Seq<char>>,
    options: MatchOptions,
    threads: usize,
) -> bool {
    &&& 1 <= rounds.len() <= parts.len()
    &&& starts(rounds[0], parts[0]@, texts, options, threads)
    &&& forall|k: int|
        1 <= k < rounds.len() ==> follows(
            rounds[k - 1],
            #[trigger] rounds[k],
            parts[k]@,
            texts,
            options,
            threads,
        )
    &&& rounds.len() == parts.len() || rounds.last().len() == 0
}

/// What matching all parts gives: texts that each of them hit, with the average
/// of their scores.
pub open spec fn matches_parts(
    hits: Seq<Hit>,
    parts: Seq<&str>,
    texts: Seq<Seq<char>>,
    options: MatchOptions,
    threads: usize,
) -> bool {
    exists|rounds: Seq<Seq<Trail>>| #[trigger]
        is_match_chain(rounds, parts, texts, options, threads) && hits == all_averaged(
            rounds.last(),
            parts.len() as int,
        )
}

/// Every part counts: after each round a trail holds one score for each part
/// that was matched, and lies in the list of texts.
proof fn lemma_rounds(
    rounds: Seq<Seq<Trail>>,
    parts: Seq<&str>,
    texts: Seq<Seq<char>>,
    options: MatchOptions,
    threads: usize,
    k: int,
)
    requires
        is_match_chain(rounds, parts, texts, options, threads),
        0 <= k < rounds.len(),
    ensures
        all_scored(rounds[k], k + 1),
        trails_fit(rounds[k], texts.len()),
    decreases k,
{
    if k == 0 {
        let hits = choose|hits: Seq<Hit>| #[trigger]
            may_match(parts[0]@, texts, options.values(), threads, hit_values(hits)) && hits_fit(
                hits,
                texts.len(),
            ) && rounds[0] == started(hits);
        lemma_started(hits, texts.len());
    } else {
        lemma_rounds(rounds, parts, texts, options, threads, k - 1);
        assert(follows(rounds[k - 1], rounds[k], parts[k]@, texts, options, threads));
        let prev = rounds[k - 1];
        let again = choose|again: Seq<Hit>| #[trigger]
            may_match(
                parts[k]@,
                survivors(texts, prev),
                capped(options, parts[k]@).values(),
                threads,
                hit_values(again),
            ) && hits_fit(again, prev.len()) && rounds[k] == combined(prev, again);
        lemma_combined_fit(prev, again, texts.len(), k);
    }
}

/// A hit of several parts has the average of one score for each of them, lies
/// where the first of them does, and is exact where all of them are.
pub proof fn law_scores_are_averaged(
    rounds: Seq<Seq<Trail>>,
    parts: Seq<&str>,
    texts: Seq<Seq<char>>,
    options: MatchOptions,
    threads: usize,
    i: int,
)
    requires
        is_match_chain(rounds, parts, texts, options, threads),
        0 <= i < rounds.last().len(),
    ensures
        ({
            let trail = rounds.last()[i];
            let hit = all_averaged(rounds.last(), parts.len() as int)[i];
            &&& rounds.len() == parts.len()
            &&& trail.scores.len() == parts.len()
            &&& hit.score == sum_of(trail.scores) as int / parts.len() as int
            &&& hit.index == trail.index < texts.len()
            &&& hit.exact == trail.exact
            &&& hit.end_col == trail.end_col
        }),
{
    let n = rounds.len() as int;
    lemma_rounds(rounds, parts, texts, options, threads, n - 1);
    let trail = rounds.last()[i];
    let sum = sum_of(trail.scores) as int;
    lemma_sum_bound(trail.scores);
    assert(0 <= sum / n <= 65535) by (nonlinear_arith)
        requires
            0 <= sum <= 65535 * n,
            n > 0,
    ;
}

proof fn lemma_started(hits: Seq<Hit>, len: nat)
    requires
        hits_fit(hits, len),
    ensures
        trails_fit(started(hits), len),
        all_scored(started(hits), 1),
{
    let out = started(hits);
    assert forall|i: int, j: int| 0 <= i < j < out.len() implies (#[trigger] out[i]).index != (
    #[trigger] out[j]).index by {
        assert(hits[i].index != hits[j].index);
    }
    assert forall|i: int| 0 <= i < out.len() implies (#[trigger] out[i]).index < len by {
        assert(hits[i].index < len);
    }
}

proof fn lemma_combined_fit(prev: Seq<Trail>, again: Seq<Hit>, len: nat, rounds: int)
    requires
        trails_fit(prev, len),
        all_scored(prev, rounds),
        hits_fit(again, prev.len()),
    ensures
        trails_fit(combined(prev, again), len),
        all_scored(combined(prev, again), rounds + 1),
{
    let out = combined(prev, again);
    assert forall|i: int, j: int| 0 <= i < j < out.len() implies (#[trigger] out[i]).index != (
    #[trigger] out[j]).index by {
        let a = again[i].index as int;
        let b = again[j].index as int;
        assert(a != b);
        if a < b {
            assert(prev[a].index != prev[b].index);
        } else {
            assert(prev[b].index != prev[a].index);
        }
    }
    assert forall|i: int| 0 <= i < out.len() implies (#[trigger] out[i]).index < len
        && out[i].scores.len() == rounds + 1 by {
        assert(again[i].index < prev.len());
        assert(prev[again[i].index as int].index < len);
        assert(prev[again[i].index as int].scores.len() == rounds);
    }
}

/// Only texts that are the needle are marked as such.
spec fn exact_trails(trails: Seq<Trail>, texts: Seq<Seq<char>>, needle: Seq<char>) -> bool {
    forall|i: int|
        0 <= i < trails.len() && (#[trigger] trails[i]).exact ==> texts[trails[i].index as int]
            == needle
}

proof fn lemma_combined_exact(
    prev: Seq<Trail>,
    again: Seq<Hit>,
    texts: Seq<Seq<char>>,
    needle: Seq<char>,
)
    requires
        exact_trails(prev, texts, needle),
        hits_fit(again, prev.len()),
    ensures
        exact_trails(combined(prev, again), texts, needle),
{
    let out = combined(prev, again);
    assert forall|i: int| 0 <= i < out.len() && (
    #[trigger] out[i]).exact implies texts[out[i].index as int] == needle by {
        assert(again[i].index < prev.len());
        assert(prev[again[i].index as int].exact);
    }
}

/// The texts that were hit, in the order of the tallies.
fn pick_texts(texts: &Vec<String>, sums: &Vec<Tally>, trails: Ghost<Seq<Trail>>) -> (r: Vec<String>)
    requires
        tallies(sums@, trails@),
        trails_fit(trails@, texts@.len()),
    ensures
        texts_of(r@) == survivors(texts_of(texts@), trails@),
{
    let mut out: Vec<String> = Vec::new();
    let mut i: usize = 0;
    while i < sums.len()
        invariant
            i <= sums@.len(),
            tallies(sums@, trails@),
            trails_fit(trails@, texts@.len()),
            out@.len() == i,
            forall|k: int|
                0 <= k < i ==> (#[trigger] out@[k])@ == texts@[trails@[k].index as int]@,
        decreases sums@.len() - i,
    {
        assert(sums@[i as int].index == trails@[i as int].index);
        out.push(texts[sums[i].index as usize].clone());
        i += 1;
    }
    assert(texts_of(out@) =~= survivors(texts_of(texts@), trails@));
    out
}

/// Matches the texts against every part, narrowing the candidates from part to
/// part.
pub fn match_parts(
    parts: &Vec<&str>,
    texts: &Vec<String>,
    options: MatchOptions,
    threads: usize,
) -> (r: Vec<Hit>)
    requires
        parts@.len() > 0,
        texts@.len() < u32::MAX,
    ensures
        matches_parts(r@, parts@, texts_of(texts@), options, threads),
        hits_fit(r@, texts@.len()),
        exact_is_needle(r@, texts_of(texts@), parts@[0]@),
        threads == 1 && parts@.len() == 1 ==> in_text_order(r@),
{
    let total: usize = parts.len();
    let first = match_list(parts[0], texts, options, threads);
    let ghost all = texts_of(texts@);
    let mut sums = open_tallies(&first);
    let ghost mut trails = started(first@);
    let ghost mut rounds: Seq<Seq<Trail>> = seq![trails];
    proof {
        lemma_started(first@, all.len());
        lemma_opened(sums@, first@);
        assert forall|i: int| 0 <= i < trails.len() && (
        #[trigger] trails[i]).exact implies all[trails[i].index as int] == parts@[0]@ by {
            assert(first@[i].exact);
        }
        assert(starts(trails, parts@[0]@, all, options, threads));
    }
    let mut k: usize = 1;
    while k < parts.len() && sums.len() > 0
        invariant
            1 <= k <= parts@.len() == total,
            all == texts_of(texts@),
            texts@.len() < u32::MAX,
            rounds.len() == k,
            rounds.last() == trails,
            tallies(sums@, trails),
            all_scored(trails, k as int),
            trails_fit(trails, all.len()),
            exact_trails(trails, all, parts@[0]@),
            k == 1 ==> trails == started(first@),
            starts(rounds[0], parts@[0]@, all, options, threads),
            forall|j: int|
                1 <= j < rounds.len() ==> follows(
                    rounds[j - 1],
                    #[trigger] rounds[j],
                    parts@[j]@,
                    all,
                    options,
                    threads,
                ),
        decreases parts@.len() - k,
    {
        let part = parts[k];
        let part_options = cap_typos(options, part);
        let picked = pick_texts(texts, &sums, Ghost(trails));
        proof {
            lemma_trails_bounded(trails, all.len());
            assert(picked@.len() == texts_of(picked@).len());
            lemma_sums_bound(sums@, trails, k as int);
        }
        let again = match_list(part, &picked, part_options, threads);
        let next = combine_hits(&sums, &again);
        proof {
            lemma_raised(sums@, next@, again@, trails, k as int);
            lemma_combined_fit(trails, again@, all.len(), k as int);
            lemma_combined_exact(trails, again@, all, parts@[0]@);
            let left = combined(trails, again@);
            assert(may_match(
                part@,
                survivors(all, trails),
                capped(options, part@).values(),
                threads,
                hit_values(again@),
            ));
            assert(follows(trails, left, part@, all, options, threads));
            rounds = rounds.push(left);
            trails = left;
        }
        sums = next;
        k += 1;
    }
    assert(is_match_chain(rounds, parts@, all, options, threads));
    if sums.len() == 0 {
        assert(all_averaged(trails, total as int) =~= Seq::<Hit>::empty());
        return Vec::new();
    }
    proof {
        lemma_sums_bound(sums@, trails, total as int);
    }
    let out = average_tallies(&sums, total);
    proof {
        lemma_shared(sums@, out@, trails, total);
        lemma_averaged_fit(trails, total as int, all, parts@[0]@);
        if threads == 1 && total == 1 {
            assert forall|i: int, j: int| 0 <= i < j < out@.len() implies (
            #[trigger] out@[i]).index < (#[trigger] out@[j]).index by {
                assert(first@[i].index < first@[j].index);
            }
        }
    }
    out
}

proof fn lemma_averaged_fit(
    trails: Seq<Trail>,
    total_parts: int,
    texts: Seq<Seq<char>>,
    needle: Seq<char>,
)
    requires
        trails_fit(trails, texts.len()),
        exact_trails(trails, texts, needle),
    ensures
        hits_fit(all_averaged(trails, total_parts), texts.len()),
        exact_is_needle(all_averaged(trails, total_parts), texts, needle),
{
    let out = all_averaged(trails, total_parts);
    assert forall|i: int, j: int| 0 <= i < j < out.len() implies (#[trigger] out[i]).index != (
    #[trigger] out[j]).index by {
        assert(trails[i].index != trails[j].index);
    }
    assert forall|i: int| 0 <= i < out.len() implies (#[trigger] out[i]).index < texts.len() by {
        assert(trails[i].index < texts.len());
    }
    assert forall|i: int| 0 <= i < out.len() && (#[trigger] out[i]).exact implies texts[out[i].index as int]
        == needle by {
        assert(trails[i].exact);
    }
}

/// There are no more trails than texts.
proof fn lemma_trails_bounded(trails: Seq<Trail>, len: nat)
    requires
        trails_fit(trails, len),
    ensures
        trails.len() <= len,
{
    let hits = all_averaged(trails, 1);
    assert forall|i: int| 0 <= i < hits.len() implies (#[trigger] hits[i]).index < len by {
        assert(trails[i].index < len);
    }
    assert forall|i: int, j: int| 0 <= i < j < hits.len() implies (#[trigger] hits[i]).index != (
    #[trigger] hits[j]).index by {
        assert(trails[i].index != trails[j].index);
    }
    lemma_hits_bounded(hits, len);
}

/// There are no more hits than texts.
pub proof fn lemma_hits_bounded(hits: Seq<Hit>, len: nat)
    requires
        hits_fit(hits, len),
    ensures
        hits.len() <= len,
    decreases len,
{
    let indices = Seq::new(hits.len(), |i: int| hits[i].index as int);
    assert(indices.no_duplicates());
    indices.unique_seq_to_set();
    let below = vstd::set_lib::set_int_range(0, len as int);
    vstd::set_lib::lemma_int_range(0, len as int);
    assert(indices.to_set().subset_of(below));
    vstd::set_lib::lemma_len_subset(indices.to_set(), below);
}

} // verus!
