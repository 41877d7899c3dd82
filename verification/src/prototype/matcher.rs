//! Searches of the first matcher: one list of survivors, found anew each time.

use crate::gpu::matcher;
use crate::gpu::matcher::Scoring;
use crate::gpu::pack;
use crate::gpu::pack::{grid, pack_paths_tight};
use crate::gpu::search;
use vstd::prelude::*;

verus! {

/// Needle bytes that are looked at.
pub const MAX_NEEDLE: usize = 32;

/// Which shader scores the paths.
#[derive(Clone, Copy, Debug, PartialEq, Eq, Structural)]
pub enum Kernel {
    ThreadPerItem,
    LanePerThread,
    Subgroup,
}

/// What the shaders are told about a search, field for field.
#[derive(Clone, Copy, Debug)]
pub struct Params {
    pub needle_len: u32,
    pub item_count: u32,
    pub match_score: u32,
    pub mismatch_penalty: u32,
    pub gap_open: u32,
    pub gap_extend: u32,
    pub prefix_bonus: u32,
    pub delimiter_bonus: u32,
    pub capitalization_bonus: u32,
    pub matching_case_bonus: u32,
    pub exact_match_bonus: u32,
    pub pad: u32,
}

/// The shader that scores.
#[derive(Clone, Copy, Debug, PartialEq, Eq, Structural)]
pub enum Scorer {
    /// Every path, without looking for survivors.
    Item,
    /// Survivors, in subgroups.
    Subgroup,
    /// Survivors, with barriers.
    Lanes,
}

/// One search, ready to be sent.
pub struct SearchPlan {
    pub params: Params,
    /// The needle, filled up with zeros.
    pub needle: Vec<u8>,
    /// Groups of the first shader.
    pub groups: (u32, u32),
    pub scorer: Scorer,
}

/// Host side of a matcher.
pub struct MatcherState {
    pub kernel: Kernel,
    pub item_count: u32,
    /// Needle lengths that the driver has no subgroup wide enough for.
    pub unsupported: Vec<usize>,
}

/// The part of a needle that is looked at.
pub open spec fn needle_bytes(needle: Seq<char>) -> Seq<u8> {
    let b = vstd::utf8::encode_utf8(needle);
    if b.len() > MAX_NEEDLE {
        b.take(MAX_NEEDLE as int)
    } else {
        b
    }
}

pub open spec fn params_of(needle_len: int, item_count: u32, scoring: Scoring) -> Params {
    Params {
        needle_len: needle_len as u32,
        item_count,
        match_score: scoring.match_score as u32,
        mismatch_penalty: scoring.mismatch_penalty as u32,
        gap_open: scoring.gap_open_penalty as u32,
        gap_extend: scoring.gap_extend_penalty as u32,
        prefix_bonus: scoring.prefix_bonus as u32,
        delimiter_bonus: scoring.delimiter_bonus as u32,
        capitalization_bonus: scoring.capitalization_bonus as u32,
        matching_case_bonus: scoring.matching_case_bonus as u32,
        exact_match_bonus: scoring.exact_match_bonus as u32,
        pad: 0,
    }
}

impl MatcherState {
    /// A matcher for some paths, the words that they are packed into, and where
    /// in them each path stands.
    pub fn new(paths: &[String], kernel: Kernel) -> (r: (MatcherState, Vec<u32>, Vec<[u32; 2]>))
        requires
            pack::joined_bytes(paths@, paths@.len() as int).len() <= u32::MAX,
            paths@.len() <= u32::MAX,
        ensures
            r.0.kernel == kernel,
            r.0.item_count == paths@.len(),
            r.0.unsupported@ == Seq::<usize>::empty(),
            pack::is_tight(paths@, r.1@, r.2@),
    {
        let (words, items) = pack_paths_tight(paths);
        (
            MatcherState { kernel, item_count: paths.len() as u32, unsupported: Vec::new() },
            words,
            items,
        )
    }

    /// Bytes of the scores, and of the list of survivors. No buffer is empty.
    pub fn buffer_sizes(&self) -> (r: (u64, u64))
        ensures
            r.0 == matcher::at_least_one(self.item_count as int) * 4,
            r.1 == matcher::at_least_one(self.item_count as int) * 16,
    {
        let n: u64 = if self.item_count > 1 {
            self.item_count as u64
        } else {
            1
        };
        (n * 4, n * 16)
    }

    pub open spec fn takes_subgroup(&self, n: int) -> bool {
        self.kernel == Kernel::Subgroup && !self.unsupported@.contains(n as usize)
    }

    /// Whether a needle of `n` bytes is scored in subgroups.
    pub fn uses_subgroup(&self, n: usize) -> (r: bool)
        ensures
            r == self.takes_subgroup(n as int),
    {
        if self.kernel != Kernel::Subgroup {
            return false;
        }
        let mut i: usize = 0;
        while i < self.unsupported.len()
            invariant
                i <= self.unsupported@.len(),
                self.kernel == Kernel::Subgroup,
                forall|j: int| 0 <= j < i ==> self.unsupported@[j] != n,
            decreases self.unsupported@.len() - i,
        {
            if self.unsupported[i] == n {
                assert(self.unsupported@.contains(n));
                return false;
            }
            i += 1;
        }
        true
    }

    /// Takes note of scores from subgroups: `u32::MAX` says that the driver
    /// picked too narrow a subgroup, and the search is repeated without.
    pub fn note_scores(&mut self, n: usize, used_subgroup: bool, scores: &[u32]) -> (repeat: bool)
        ensures
            repeat == (used_subgroup && scores@.contains(u32::MAX)),
            repeat ==> final(self).unsupported@ == old(self).unsupported@.push(n)
                && !final(self).takes_subgroup(n as int),
            !repeat ==> final(self).unsupported@ == old(self).unsupported@,
            final(self).kernel == old(self).kernel,
            final(self).item_count == old(self).item_count,
    {
        if !used_subgroup {
            return false;
        }
        let mut i: usize = 0;
        while i < scores.len()
            invariant
                i <= scores@.len(),
                *self == *old(self),
                used_subgroup,
                forall|j: int| 0 <= j < i ==> scores@[j] != u32::MAX,
            decreases scores@.len() - i,
        {
            if scores[i] == u32::MAX {
                assert(scores@.contains(u32::MAX));
                self.unsupported.push(n);
                assert(self.unsupported@[old(self).unsupported@.len() as int] == n);
                return true;
            }
            i += 1;
        }
        false
    }

    pub open spec fn scorer_of(&self, use_subgroup: bool) -> Scorer {
        if self.kernel == Kernel::ThreadPerItem {
            Scorer::Item
        } else if use_subgroup {
            Scorer::Subgroup
        } else {
            Scorer::Lanes
        }
    }

    /// Works out a search.
    pub fn plan_search(&self, needle: &str, scoring: &Scoring, use_subgroup: bool) -> (plan:
        SearchPlan)
        ensures
            plan.params == params_of(
                needle_bytes(needle@).len() as int,
                self.item_count,
                *scoring,
            ),
            plan.params.match_score == scoring.match_score,
            plan.params.mismatch_penalty == scoring.mismatch_penalty,
            plan.params.gap_open == scoring.gap_open_penalty,
            plan.params.gap_extend == scoring.gap_extend_penalty,
            plan.params.prefix_bonus == scoring.prefix_bonus,
            plan.params.delimiter_bonus == scoring.delimiter_bonus,
            plan.params.capitalization_bonus == scoring.capitalization_bonus,
            plan.params.matching_case_bonus == scoring.matching_case_bonus,
            plan.params.exact_match_bonus == scoring.exact_match_bonus,
            plan.needle@ == search::padded(needle_bytes(needle@)),
            plan.groups.0 * plan.groups.1 * 64 >= self.item_count,
            plan.groups.0 == pack::grid_of(search::blocks_of(self.item_count as int)).0,
            plan.groups.1 == pack::grid_of(search::blocks_of(self.item_count as int)).1,
            plan.scorer == self.scorer_of(use_subgroup),
    {
        let b = needle.as_bytes();
        let n: usize = if b.len() > MAX_NEEDLE {
            MAX_NEEDLE
        } else {
            b.len()
        };
        let part = vstd::slice::slice_subrange(b, 0, n);
        assert(part@ =~= needle_bytes(needle@));
        let cut = vstd::slice::slice_to_vec(part);
        let blocks: u32 = search::groups_of(self.item_count as usize);
        let groups = grid(blocks);
        let scorer = match self.kernel {
            Kernel::ThreadPerItem => Scorer::Item,
            _ => if use_subgroup {
                Scorer::Subgroup
            } else {
                Scorer::Lanes
            },
        };
        let params = Params {
            needle_len: n as u32,
            item_count: self.item_count,
            match_score: scoring.match_score as u32,
            mismatch_penalty: scoring.mismatch_penalty as u32,
            gap_open: scoring.gap_open_penalty as u32,
            gap_extend: scoring.gap_extend_penalty as u32,
            prefix_bonus: scoring.prefix_bonus as u32,
            delimiter_bonus: scoring.delimiter_bonus as u32,
            capitalization_bonus: scoring.capitalization_bonus as u32,
            matching_case_bonus: scoring.matching_case_bonus as u32,
            exact_match_bonus: scoring.exact_match_bonus as u32,
            pad: 0,
        };
        SearchPlan { params, needle: search::pad_needle(&cut), groups, scorer }
    }
}

} // verus!
