//! Searches of the GPU matcher: what each one sends and runs.

use crate::gpu::matcher;
use crate::gpu::matcher::{Kernel, Params, Reserve, ReserveExhausted, Scoring, Tables, Upload, MAX_NEEDLE};
use crate::gpu::pack;
use crate::gpu::pack::grid;
use vstd::prelude::*;

verus! {

/// Bytes into the dispatch arguments that hold the survivors, one group each.
pub const SURVIVOR_GROUPS: u64 = 0;

/// Bytes into the dispatch arguments that hold the survivors in groups of 64.
pub const SURVIVOR_BLOCKS: u64 = 12;

/// Host side of a matcher.
pub struct MatcherState {
    pub kernel: Kernel,
    pub tables: Tables,
    /// Which of the two survivor lists is current.
    pub cur: usize,
    /// Needle that the current survivors are for; empty if there are none.
    pub last_needle: Vec<u8>,
    /// Survivors may be reused for a longer needle.
    pub incremental: bool,
    /// Longest needle that the subgroup kernel leaves to the scalar one.
    pub scalar_max: usize,
    /// Needle lengths that the driver has no subgroup wide enough for.
    pub unsupported: Vec<usize>,
}

/// How the paths that a needle can match at all are found.
#[derive(Clone, Copy, Debug, PartialEq, Eq, Structural)]
pub enum Prefilter {
    /// Not at all: every path is scored.
    Off { x: u32, y: u32 },
    /// Among all paths.
    All { x: u32, y: u32 },
    /// Among the survivors of the last needle; the argument is where their
    /// number stands.
    Survivors { at: u64 },
}

/// The shader that scores.
#[derive(Clone, Copy, Debug, PartialEq, Eq, Structural)]
pub enum Scorer {
    Item,
    Scalar,
    Subgroup,
    Lanes,
}

/// One search, ready to be sent.
pub struct SearchPlan {
    pub params: Params,
    /// The needle, filled up with zeros.
    pub needle: Vec<u8>,
    /// The survivor list that is written.
    pub set: usize,
    pub prefilter: Prefilter,
    pub scorer: Scorer,
    /// Where the scorer's number of groups stands.
    pub score_at: u64,
}

/// The part of a needle that is looked at.
pub open spec fn needle_bytes(needle: Seq<char>) -> Seq<u8> {
    let b = vstd::utf8::encode_utf8(needle);
    if b.len() > MAX_NEEDLE {
        b.take(MAX_NEEDLE as int)
    } else {
        b
    }
}

/// Bytes filled up with zeros.
pub open spec fn padded(b: Seq<u8>) -> Seq<u8> {
    Seq::new(
        64,
        |i: int|
            if i < b.len() {
                b[i]
            } else {
                0u8
            },
    )
}

pub open spec fn blocks_of(n: int) -> int {
    (n + 63) / 64
}

pub open spec fn params_of(
    needle_len: int,
    tables: Tables,
    scoring: Scoring,
    top_k: Option<u32>,
    tie_bucket: u32,
) -> Params {
    Params {
        needle_len: needle_len as u32,
        item_count: tables.item_count as u32,
        match_score: scoring.match_score as u32,
        mismatch_penalty: scoring.mismatch_penalty as u32,
        gap_open: scoring.gap_open_penalty as u32,
        gap_extend: scoring.gap_extend_penalty as u32,
        prefix_bonus: scoring.prefix_bonus as u32,
        delimiter_bonus: scoring.delimiter_bonus as u32,
        capitalization_bonus: scoring.capitalization_bonus as u32,
        matching_case_bonus: scoring.matching_case_bonus as u32,
        exact_match_bonus: scoring.exact_match_bonus as u32,
        thread_count: tables.thread_count as u32,
        reserved: 0,
        top_k: match top_k {
            Some(k) => k,
            None => 0,
        },
        tie_bucket,
    }
}

/// The first bytes of a needle.
fn cut_needle(needle: &str) -> (r: Vec<u8>)
    ensures
        r@ == needle_bytes(needle@),
{
    let b = needle.as_bytes();
    if b.len() > MAX_NEEDLE {
        let part = vstd::slice::slice_subrange(b, 0, MAX_NEEDLE);
        assert(part@ =~= b@.take(MAX_NEEDLE as int));
        vstd::slice::slice_to_vec(part)
    } else {
        vstd::slice::slice_to_vec(b)
    }
}

pub(crate) fn pad_needle(b: &Vec<u8>) -> (r: Vec<u8>)
    ensures
        r@ == padded(b@),
{
    let mut out: Vec<u8> = Vec::new();
    let mut i: usize = 0;
    while i < 64
        invariant
            i <= 64,
            out@ == padded(b@).take(i as int),
        decreases 64 - i,
    {
        let byte: u8 = if i < b.len() {
            b[i]
        } else {
            0
        };
        out.push(byte);
        assert(out@ =~= padded(b@).take(i + 1));
        i += 1;
    }
    assert(out@ =~= padded(b@));
    out
}

fn starts_with(b: &Vec<u8>, prefix: &Vec<u8>) -> (r: bool)
    ensures
        r == prefix@.is_prefix_of(b@),
{
    if prefix.len() > b.len() {
        return false;
    }
    let mut i: usize = 0;
    while i < prefix.len()
        invariant
            i <= prefix@.len() <= b@.len(),
            forall|j: int| 0 <= j < i ==> prefix@[j] == b@[j],
        decreases prefix@.len() - i,
    {
        if prefix[i] != b[i] {
            assert(b@.subrange(0, prefix@.len() as int)[i as int] == b@[i as int]);
            return false;
        }
        i += 1;
    }
    assert(prefix@ =~= b@.subrange(0, prefix@.len() as int));
    true
}

pub(crate) fn groups_of(n: usize) -> (r: u32)
    requires
        n <= u32::MAX,
    ensures
        r == blocks_of(n as int),
{
    let n: u32 = n as u32;
    n / 64 + if n % 64 == 0 {
        0
    } else {
        1
    }
}

impl MatcherState {
    /// Counts are ones that the shaders can read.
    pub open spec fn wf(&self) -> bool {
        &&& matcher::within(self.tables)
        &&& self.tables.item_count <= u32::MAX
        &&& self.tables.thread_count <= u32::MAX
        &&& self.cur < 2
        &&& self.last_needle@.len() <= MAX_NEEDLE
    }

    /// A matcher for some paths, and what is written into its tables.
    pub fn with_reserve(
        paths: &[String],
        fname_off: Option<&[u32]>,
        kernel: Kernel,
        reserve: Reserve,
        scalar_max: usize,
        incremental: bool,
    ) -> (r: (MatcherState, Upload))
        requires
            pack::packs(paths@, 0, 0, true),
            paths@.len() + 64 <= u32::MAX,
            paths@.len() + reserve.items + 128 <= usize::MAX,
            u32::MAX + pack::words_for(reserve.bytes as int) * 2 + reserve.items * 64
                <= usize::MAX,
        ensures
            r.0.wf(),
            r.0.kernel == kernel,
            exists|bare: Tables| #[trigger]
                matcher::is_bare(bare) && matcher::is_upload(paths@, fname_off, true, bare, r.1)
                    && matcher::is_loaded(bare, r.0.tables, paths@.len(), r.1),
            matcher::has_room(r.0.tables, paths@.len(), r.1, reserve),
            r.0.cur == 0,
            r.0.last_needle@ == Seq::<u8>::empty(),
            r.0.incremental == incremental,
            r.0.scalar_max == scalar_max,
            r.0.unsupported@ == Seq::<usize>::empty(),
    {
        let (tables, upload) = Tables::with_reserve(paths, fname_off, reserve);
        let ids: usize = upload.soa_ids.len();
        assert(ids <= paths@.len() + 63) by {
            let bare = choose|bare: Tables| #[trigger]
                matcher::is_bare(bare) && matcher::is_upload(
                    paths@,
                    fname_off,
                    true,
                    bare,
                    upload,
                ) && matcher::is_loaded(bare, tables, paths@.len(), upload);
            assert(matcher::interleaves(paths@, true, 0, 0, upload));
        }
        (
            MatcherState {
                kernel,
                tables,
                cur: 0,
                last_needle: Vec::new(),
                incremental,
                scalar_max,
                unsupported: Vec::new(),
            },
            upload,
        )
    }

    pub fn len(&self) -> (r: usize)
        ensures
            r == self.tables.item_count,
    {
        self.tables.item_count
    }

    pub fn is_empty(&self) -> (r: bool)
        ensures
            r == (self.tables.item_count == 0),
    {
        self.tables.item_count == 0
    }

    /// Adds paths; ids go on from `len()`. The next search looks at all paths:
    /// new ones are in no list of survivors. Nothing is written for no paths.
    pub fn append(&mut self, paths: &[String], fname_off: Option<&[u32]>) -> (r: Result<
        Option<Upload>,
        ReserveExhausted,
    >)
        requires
            old(self).wf(),
            matcher::can_load(paths@, false, old(self).tables),
        ensures
            final(self).wf(),
            match r {
                Ok(None) => paths@.len() == 0 && *final(self) == *old(self),
                Ok(Some(upload)) => {
                    &&& paths@.len() > 0
                    &&& matcher::is_upload(paths@, fname_off, false, old(self).tables, upload)
                    &&& !old(self).tables.overflows(paths@.len(), upload)
                    &&& matcher::is_loaded(
                        old(self).tables,
                        final(self).tables,
                        paths@.len(),
                        upload,
                    )
                    &&& final(self).last_needle@ == Seq::<u8>::empty()
                    &&& final(self).same_settings(*old(self))
                    &&& final(self).cur == old(self).cur
                    &&& final(self).incremental == old(self).incremental
                    &&& final(self).unsupported@ == old(self).unsupported@
                },
                Err(_) => paths@.len() > 0 && *final(self) == *old(self)
                    && exists|upload: Upload| #[trigger]
                    matcher::is_upload(paths@, fname_off, false, old(self).tables, upload) && old(
                        self).tables.overflows(paths@.len(), upload),
            },
    {
        if paths.len() == 0 {
            return Ok(None);
        }
        let mut tables = self.tables;
        let ghost before = self.tables;
        match tables.append(paths, fname_off) {
            Ok(upload) => {
                assert(upload.soa_ids@.len() <= paths@.len() + 63) by {
                    assert(matcher::interleaves(
                        paths@,
                        false,
                        before.item_count as int,
                        before.soa_words as int,
                        upload,
                    ));
                }
                self.tables = tables;
                self.last_needle = Vec::new();
                Ok(Some(upload))
            },
            Err(e) => Err(e),
        }
    }

    /// What never changes.
    pub open spec fn same_settings(&self, other: MatcherState) -> bool {
        self.kernel == other.kernel && self.scalar_max == other.scalar_max
    }

    /// Lets survivors be reused, or not; the current ones are forgotten.
    pub fn set_incremental(&mut self, on: bool)
        ensures
            final(self).incremental == on,
            final(self).last_needle@ == Seq::<u8>::empty(),
            final(self).same_settings(*old(self)),
            final(self).tables == old(self).tables,
            final(self).cur == old(self).cur,
            final(self).unsupported@ == old(self).unsupported@,
    {
        self.incremental = on;
        self.last_needle = Vec::new();
    }

    pub open spec fn takes_scalar(&self, n: int) -> bool {
        match self.kernel {
            Kernel::Scalar => true,
            Kernel::Subgroup => n <= self.scalar_max,
            _ => false,
        }
    }

    /// Whether a needle of `n` bytes is scored by the scalar shader.
    pub fn uses_scalar(&self, n: usize) -> (r: bool)
        ensures
            r == self.takes_scalar(n as int),
    {
        match self.kernel {
            Kernel::Scalar => true,
            Kernel::Subgroup => n <= self.scalar_max,
            _ => false,
        }
    }

    pub open spec fn takes_subgroup(&self, n: int) -> bool {
        &&& !self.takes_scalar(n)
        &&& self.kernel == Kernel::Subgroup
        &&& !self.unsupported@.contains(n as usize)
    }

    /// Whether a needle of `n` bytes is scored by the subgroup shader.
    pub fn uses_subgroup(&self, n: usize) -> (r: bool)
        ensures
            r == self.takes_subgroup(n as int),
    {
        if self.uses_scalar(n) || self.kernel != Kernel::Subgroup {
            return false;
        }
        let mut i: usize = 0;
        while i < self.unsupported.len()
            invariant
                i <= self.unsupported@.len(),
                !self.takes_scalar(n as int),
                self.kernel == Kernel::Subgroup,
                forall|j: int| 0 <= j < i ==> self.unsupported@[j] != n,
            decreases self.unsupported@.len() - i,
        {
            if self.unsupported[i] == n {
                assert(self.unsupported@.contains(n));
                return false;
            }
            i += 1;
        }
        true
    }

    /// Bytes of a needle that are looked at.
    pub fn needle_len(needle: &str) -> (n: usize)
        ensures
            n == needle_bytes(needle@).len(),
    {
        let len: usize = needle.as_bytes().len();
        if len > MAX_NEEDLE {
            MAX_NEEDLE
        } else {
            len
        }
    }

    /// Takes note of scores from the subgroup shader: a score of `u32::MAX`
    /// says that the driver picked too narrow a subgroup. The needle length is
    /// then left to another shader from now on, and the search is repeated.
    pub fn note_scores(&mut self, n: usize, used_subgroup: bool, scores: &[u32]) -> (repeat: bool)
        ensures
            repeat == (used_subgroup && scores@.contains(u32::MAX)),
            repeat ==> final(self).unsupported@ == old(self).unsupported@.push(n)
                && !final(self).takes_subgroup(n as int),
            !repeat ==> final(self).unsupported@ == old(self).unsupported@,
            final(self).same_settings(*old(self)),
            final(self).tables == old(self).tables,
            final(self).cur == old(self).cur,
            final(self).last_needle@ == old(self).last_needle@,
            final(self).incremental == old(self).incremental,
    {
        if !used_subgroup {
            return false;
        }
        let mut i: usize = 0;
        while i < scores.len()
            invariant
                i <= scores@.len(),
                *self == *old(self),
                used_subgroup,
                forall|j: int| 0 <= j < i ==> scores@[j] != u32::MAX,
            decreases scores@.len() - i,
        {
            if scores[i] == u32::MAX {
                assert(scores@.contains(u32::MAX));
                self.unsupported.push(n);
                assert(self.unsupported@[old(self).unsupported@.len() as int] == n);
                return true;
            }
            i += 1;
        }
        false
    }

    /// The last needle's survivors hold every path that this one can match.
    pub open spec fn reuses(&self, needle: Seq<u8>) -> bool {
        &&& self.incremental
        &&& self.kernel != Kernel::ThreadPerItem
        &&& self.last_needle@.len() > 0
        &&& self.last_needle@.is_prefix_of(needle)
    }

    pub open spec fn prefilter_of(&self, needle: Seq<u8>) -> Prefilter {
        if self.kernel == Kernel::ThreadPerItem {
            let g = pack::grid_of(blocks_of(self.tables.item_count as int));
            Prefilter::Off { x: g.0 as u32, y: g.1 as u32 }
        } else if self.reuses(needle) {
            Prefilter::Survivors { at: SURVIVOR_BLOCKS }
        } else {
            let g = pack::grid_of(blocks_of(self.tables.thread_count as int));
            Prefilter::All { x: g.0 as u32, y: g.1 as u32 }
        }
    }

    pub open spec fn scorer_of(&self, n: int, use_subgroup: bool) -> Scorer {
        if self.kernel == Kernel::ThreadPerItem {
            Scorer::Item
        } else if self.takes_scalar(n) {
            Scorer::Scalar
        } else if use_subgroup {
            Scorer::Subgroup
        } else {
            Scorer::Lanes
        }
    }

    /// Works out a search.
    pub fn plan_search(
        &self,
        needle: &str,
        scoring: &Scoring,
        use_subgroup: bool,
        top_k: Option<u32>,
    ) -> (plan: SearchPlan)
        requires
            self.wf(),
        ensures
            plan.params == params_of(
                needle_bytes(needle@).len() as int,
                self.tables,
                *scoring,
                top_k,
                0,
            ),
            plan.params.match_score == scoring.match_score,
            plan.params.mismatch_penalty == scoring.mismatch_penalty,
            plan.params.gap_open == scoring.gap_open_penalty,
            plan.params.gap_extend == scoring.gap_extend_penalty,
            plan.params.prefix_bonus == scoring.prefix_bonus,
            plan.params.delimiter_bonus == scoring.delimiter_bonus,
            plan.params.capitalization_bonus == scoring.capitalization_bonus,
            plan.params.matching_case_bonus == scoring.matching_case_bonus,
            plan.params.exact_match_bonus == scoring.exact_match_bonus,
            plan.params.item_count == self.tables.item_count,
            plan.params.thread_count == self.tables.thread_count,
            plan.needle@ == padded(needle_bytes(needle@)),
            plan.set == 1 - self.cur,
            plan.prefilter == self.prefilter_of(needle_bytes(needle@)),
            plan.scorer == self.scorer_of(needle_bytes(needle@).len() as int, use_subgroup),
            plan.score_at == if plan.scorer == Scorer::Scalar {
                SURVIVOR_BLOCKS
            } else {
                SURVIVOR_GROUPS
            },
    {
        let cut = cut_needle(needle);
        let n: usize = cut.len();
        let prefilter = if self.kernel == Kernel::ThreadPerItem {
            let (x, y) = grid(groups_of(self.tables.item_count));
            Prefilter::Off { x, y }
        } else if self.incremental && self.last_needle.len() > 0 && starts_with(
            &cut,
            &self.last_needle,
        ) {
            Prefilter::Survivors { at: SURVIVOR_BLOCKS }
        } else {
            let (x, y) = grid(groups_of(self.tables.thread_count));
            Prefilter::All { x, y }
        };
        let scorer = if self.kernel == Kernel::ThreadPerItem {
            Scorer::Item
        } else if self.uses_scalar(n) {
            Scorer::Scalar
        } else if use_subgroup {
            Scorer::Subgroup
        } else {
            Scorer::Lanes
        };
        let score_at: u64 = if scorer == Scorer::Scalar {
            SURVIVOR_BLOCKS
        } else {
            SURVIVOR_GROUPS
        };
        let params = Params {
            needle_len: n as u32,
            item_count: self.tables.item_count as u32,
            match_score: scoring.match_score as u32,
            mismatch_penalty: scoring.mismatch_penalty as u32,
            gap_open: scoring.gap_open_penalty as u32,
            gap_extend: scoring.gap_extend_penalty as u32,
            prefix_bonus: scoring.prefix_bonus as u32,
            delimiter_bonus: scoring.delimiter_bonus as u32,
            capitalization_bonus: scoring.capitalization_bonus as u32,
            matching_case_bonus: scoring.matching_case_bonus as u32,
            exact_match_bonus: scoring.exact_match_bonus as u32,
            thread_count: self.tables.thread_count as u32,
            reserved: 0,
            top_k: match top_k {
                Some(k) => k,
                None => 0,
            },
            tie_bucket: 0,
        };
        SearchPlan { params, needle: pad_needle(&cut), set: 1 - self.cur, prefilter, scorer, score_at }
    }

    /// Takes note that a search was sent: its survivors are the current ones.
    /// There are none where every path is scored.
    pub fn submitted(&mut self, needle: &str)
        requires
            old(self).wf(),
        ensures
            final(self).wf(),
            old(self).kernel == Kernel::ThreadPerItem ==> *final(self) == *old(self),
            old(self).kernel != Kernel::ThreadPerItem ==> final(self).cur == 1 - old(self).cur
                && final(self).last_needle@ == needle_bytes(needle@),
            final(self).same_settings(*old(self)),
            final(self).tables == old(self).tables,
            final(self).incremental == old(self).incremental,
            final(self).unsupported@ == old(self).unsupported@,
    {
        if self.kernel != Kernel::ThreadPerItem {
            self.cur = 1 - self.cur;
            self.last_needle = cut_needle(needle);
        }
    }
}

/// A search repeated after scores from too narrow a subgroup runs another
/// shader: no third try is needed.
pub proof fn law_one_repetition(state: MatcherState, n: int)
    requires
        0 <= n <= MAX_NEEDLE,
        state.unsupported@.contains(n as usize),
    ensures
        !state.takes_subgroup(n),
        state.scorer_of(n, state.takes_subgroup(n)) != Scorer::Subgroup,
{
}

/// After an append, or after survivors were forgotten, a search looks at all
/// paths.
pub proof fn law_forgotten_survivors_are_not_reused(state: MatcherState, needle: Seq<u8>)
    requires
        state.last_needle@ == Seq::<u8>::empty(),
    ensures
        !(state.prefilter_of(needle) is Survivors),
{
}

/// A needle that only differs behind its first `MAX_NEEDLE` bytes reuses the
/// survivors of the one before.
pub proof fn law_truncated_needles_reuse_survivors(
    state: MatcherState,
    last: Seq<char>,
    needle: Seq<char>,
)
    requires
        state.incremental,
        state.kernel != Kernel::ThreadPerItem,
        state.last_needle@ == needle_bytes(last),
        needle_bytes(last).len() > 0,
        needle_bytes(last) == needle_bytes(needle),
    ensures
        state.prefilter_of(needle_bytes(needle)) is Survivors,
{
}

/// Survivors are reused only for needles that go on where the last one ended.
pub proof fn law_reused_survivors_cover(state: MatcherState, needle: Seq<u8>)
    requires
        state.prefilter_of(needle) is Survivors,
    ensures
        state.last_needle@.len() > 0,
        state.last_needle@.is_prefix_of(needle),
        state.incremental,
{
}

} // verus!
