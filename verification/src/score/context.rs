//! What a search is made with, and what it gives.

use crate::bytes;
use vstd::prelude::*;

verus! {

/// How a result came to its place.
#[derive(Clone, Copy, Debug)]
pub struct Score {
    pub total: i32,
    pub base_score: i32,
    pub filename_bonus: i32,
    pub special_filename_bonus: i32,
    pub frecency_boost: i32,
    pub git_status_boost: i32,
    pub git_recency_boost: i32,
    pub distance_penalty: i32,
    pub current_file_penalty: i32,
    pub combo_match_boost: i32,
    pub path_alignment_bonus: i32,
    pub exact_match: bool,
    pub match_type: &'static str,
}

/// Nothing scored.
pub open spec fn blank_score(match_type: &'static str) -> Score {
    Score {
        total: 0,
        base_score: 0,
        filename_bonus: 0,
        special_filename_bonus: 0,
        frecency_boost: 0,
        git_status_boost: 0,
        git_recency_boost: 0,
        distance_penalty: 0,
        current_file_penalty: 0,
        combo_match_boost: 0,
        path_alignment_bonus: 0,
        exact_match: false,
        match_type,
    }
}

impl Default for Score {
    fn default() -> (r: Self)
        ensures
            r == blank_score(""),
    {
        Score {
            total: 0,
            base_score: 0,
            filename_bonus: 0,
            special_filename_bonus: 0,
            frecency_boost: 0,
            git_status_boost: 0,
            git_recency_boost: 0,
            distance_penalty: 0,
            current_file_penalty: 0,
            combo_match_boost: 0,
            path_alignment_bonus: 0,
            exact_match: false,
            match_type: "",
        }
    }
}

#[derive(Clone, Copy, Debug)]
pub struct PaginationArgs {
    pub offset: usize,
    /// 0 asks for everything.
    pub limit: usize,
}

/// The part of a query that is matched fuzzily.
pub enum FuzzyQuery<'a> {
    Text(&'a str),
    Parts(Vec<&'a str>),
    Empty,
}

pub struct FFFQuery<'a> {
    pub fuzzy_query: FuzzyQuery<'a>,
}

/// The file that was last opened from the same query.
pub struct QueryMatch {
    pub file_path: String,
    pub open_count: u32,
}

/// Penalties for the distance of a directory from that of the current file.
/// Directories that are not listed have none.
pub struct DirectoryDistance {
    pub penalties: Vec<(Vec<u8>, i32)>,
}

/// The penalty of the first of the `n` first entries for `dir`.
pub open spec fn listed_penalty(entries: Seq<(Vec<u8>, i32)>, dir: Seq<u8>, n: int) -> i32
    decreases n,
{
    if n <= 0 || n > entries.len() {
        0
    } else {
        let k = entries.len() - n;
        if entries[k].0@ == dir {
            entries[k].1
        } else {
            listed_penalty(entries, dir, n - 1)
        }
    }
}

impl DirectoryDistance {
    pub open spec fn penalty_of(&self, dir: Seq<u8>) -> i32 {
        listed_penalty(self.penalties@, dir, self.penalties@.len() as int)
    }

    pub fn penalty(&self, dir: &[u8]) -> (r: i32)
        ensures
            r == self.penalty_of(dir@),
    {
        let mut i: usize = 0;
        while i < self.penalties.len()
            invariant
                i <= self.penalties@.len(),
                self.penalty_of(dir@) == listed_penalty(
                    self.penalties@,
                    dir@,
                    self.penalties@.len() - i,
                ),
            decreases self.penalties@.len() - i,
        {
            if bytes::same_bytes(self.penalties[i].0.as_slice(), dir) {
                return self.penalties[i].1;
            }
            i += 1;
        }
        0
    }
}

pub struct ScoringContext<'a> {
    pub query: &'a FFFQuery<'a>,
    /// Rows that meet the constraints of the query, by their place in the
    /// table; `None` where it has none that decide.
    pub kept: Option<&'a Vec<bool>>,
    pub max_threads: usize,
    pub max_typos: u16,
    pub current_file: Option<&'a str>,
    /// Distances from the current file.
    pub distance: &'a DirectoryDistance,
    pub last_same_query_match: Option<&'a QueryMatch>,
    pub combo_boost_score_multiplier: i32,
    pub min_combo_count: u32,
    pub pagination: PaginationArgs,
    /// What separates the segments of a path on this platform, next to `/`.
    pub main_separator: char,
}

} // verus!
