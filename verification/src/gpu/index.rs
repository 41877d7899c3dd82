//! When the copy of the file list on the GPU is brought up to date.

use crate::gpu::matcher::Reserve;
use crate::score::rows;
use crate::score::rows::read_file_text;
use crate::simd_path::ArenaPtr;
use crate::types::FileItem;
use vstd::prelude::*;

verus! {

/// Files behind the base that a GPU index leaves room for.
pub const RESERVED_FILES: usize = 1024;

/// Bytes that each of them is given.
pub const RESERVED_PATH_BYTES: usize = 512;

/// What a file that is modified in its work tree gains.
pub const MODIFIED_BOOST: i32 = 15;

/// The digit `0`.
pub const ZERO: u8 = 48;

/// What is known of the GPU.
#[derive(Debug, Clone)]
pub struct GpuStatus {
    pub compiled: bool,
    pub enabled: bool,
    pub adapter: Option<String>,
    pub indexed_files: Option<usize>,
}

impl Default for GpuStatus {
    fn default() -> (r: Self)
        ensures
            !r.compiled,
            !r.enabled,
            r.adapter is None,
            r.indexed_files is None,
    {
        GpuStatus { compiled: false, enabled: false, adapter: None, indexed_files: None }
    }
}

/// The file list: base files, then those that came later.
pub struct Files<'a> {
    pub files: &'a [FileItem],
    pub base_count: usize,
    pub base_arena: ArenaPtr<'a>,
    pub overflow_arena: ArenaPtr<'a>,
}

impl<'a> Files<'a> {
    pub open spec fn arena_of(self, i: int) -> ArenaPtr<'a> {
        if i < self.base_count {
            self.base_arena
        } else {
            self.overflow_arena
        }
    }

    /// Every path can be read.
    pub open spec fn wf(self) -> bool {
        forall|i: int|
            0 <= i < self.files@.len() ==> rows::readable(self.arena_of(i), #[trigger] self.files@[i])
    }

    /// Whether every path can be read.
    pub fn can_read(&self) -> (r: bool)
        ensures
            r == self.wf(),
    {
        let n: usize = self.files.len();
        let base_sound = match self.base_arena.store {
            Some(store) => store.is_sound(),
            None => false,
        };
        let overflow_sound = match self.overflow_arena.store {
            Some(store) => store.is_sound(),
            None => false,
        };
        let mut i: usize = 0;
        while i < n
            invariant
                n == self.files@.len(),
                i <= n,
                base_sound == (self.base_arena.store matches Some(store) && store.wf()),
                overflow_sound == (self.overflow_arena.store matches Some(store) && store.wf()),
                forall|k: int|
                    0 <= k < i ==> rows::readable(self.arena_of(k), #[trigger] self.files@[k]),
            decreases n - i,
        {
            let file = &self.files[i];
            let sound = if i < self.base_count {
                base_sound
            } else {
                overflow_sound
            };
            if !sound {
                assert(!rows::readable(self.arena_of(i as int), self.files@[i as int]));
                return false;
            }
            match self.arena(i).store {
                Some(store) => {
                    if !store.can_name(file.path) {
                        assert(!rows::readable(self.arena_of(i as int), self.files@[i as int]));
                        return false;
                    }
                },
                None => {
                    return false;
                },
            }
            i += 1;
        }
        true
    }

    /// Where the path of file `i` is kept.
    pub fn arena(&self, i: usize) -> (r: ArenaPtr<'a>)
        ensures
            r == self.arena_of(i as int),
    {
        if i < self.base_count {
            self.base_arena
        } else {
            self.overflow_arena
        }
    }

    /// The paths of the files `start..end`, and where in them the file names
    /// start.
    pub fn paths(&self, start: usize, end: usize) -> (r: (Vec<String>, Vec<u32>))
        requires
            self.wf(),
            start <= end <= self.files@.len(),
        ensures
            r.0@.len() == end - start,
            r.1@.len() == end - start,
            forall|i: int|
                0 <= i < end - start ==> vstd::utf8::encode_utf8((#[trigger] r.0@[i])@)
                    == rows::path_in(self.arena_of(start + i), self.files@[start + i]),
            forall|i: int|
                0 <= i < end - start ==> (#[trigger] r.1@[i]) == self.files@[start
                    + i].path.filename_offset,
    {
        let mut paths: Vec<String> = Vec::new();
        let mut fname: Vec<u32> = Vec::new();
        let mut i: usize = start;
        while i < end
            invariant
                self.wf(),
                start <= i <= end <= self.files@.len(),
                paths@.len() == i - start,
                fname@.len() == i - start,
                forall|k: int|
                    0 <= k < i - start ==> vstd::utf8::encode_utf8((#[trigger] paths@[k])@)
                        == rows::path_in(self.arena_of(start + k), self.files@[start + k]),
                forall|k: int|
                    0 <= k < i - start ==> (#[trigger] fname@[k]) == self.files@[start
                        + k].path.filename_offset,
            decreases end - i,
        {
            let file = &self.files[i];
            assert(rows::readable(self.arena_of(i as int), self.files@[i as int]));
            paths.push(read_file_text(self.arena(i), file));
            fname.push(file.path.filename_offset as u32);
            i += 1;
        }
        (paths, fname)
    }

    /// What each file gains on the GPU.
    pub fn boosts(&self) -> (r: Vec<i32>)
        ensures
            r@.len() == self.files@.len(),
            forall|i: int| 0 <= i < r@.len() ==> (#[trigger] r@[i]) == boost_of(self.files@[i]),
    {
        let mut out: Vec<i32> = Vec::new();
        let mut i: usize = 0;
        while i < self.files.len()
            invariant
                i <= self.files@.len(),
                out@.len() == i,
                forall|k: int| 0 <= k < i ==> (#[trigger] out@[k]) == boost_of(self.files@[k]),
            decreases self.files@.len() - i,
        {
            let file = &self.files[i];
            let gain: i32 = if file.git_modified {
                MODIFIED_BOOST
            } else {
                0
            };
            out.push(file.total_frecency_score() + gain);
            i += 1;
        }
        out
    }
}

/// Frecency, and a little for files that are being worked on.
pub open spec fn boost_of(file: FileItem) -> int {
    file.total_frecency() + if file.git_modified {
        MODIFIED_BOOST as int
    } else {
        0
    }
}

pub open spec fn next_boost_gen(generation: int) -> int {
    if generation == u64::MAX {
        0
    } else {
        generation + 1
    }
}

/// The generation of boosts that follows. It changes whenever the frecency or
/// the git status of a file does.
pub fn bump_boost_gen(generation: u64) -> (r: u64)
    ensures
        r == next_boost_gen(generation as int),
{
    generation.wrapping_add(1)
}

/// Whether the GPU is used: it is, unless the setting is `0`.
pub fn enabled(setting: Option<&str>) -> (r: bool)
    ensures
        r == match setting {
            Some(v) => vstd::utf8::encode_utf8(v@) != seq![ZERO],
            None => true,
        },
{
    match setting {
        Some(v) => {
            let b = v.as_bytes();
            if b.len() == 1 && b[0] == ZERO {
                assert(b@ =~= seq![ZERO]);
                false
            } else {
                assert(seq![ZERO][0] == ZERO);
                true
            }
        },
        None => true,
    }
}

/// Room that a new index leaves for files to come.
pub fn index_reserve() -> (r: Reserve)
    ensures
        r.items == 1024,
        r.bytes == 1024 * 512,
{
    Reserve { items: RESERVED_FILES, bytes: RESERVED_FILES * RESERVED_PATH_BYTES }
}

/// What an index on the GPU was built from.
#[derive(Clone, Copy, Debug)]
pub struct IndexState {
    /// Where the base files are kept, and how many there are.
    pub base_key: (usize, usize),
    pub indexed: usize,
    pub boost_gen: u64,
}

/// What has to happen before a search.
#[derive(Clone, Copy, Debug, PartialEq, Eq, Structural)]
pub enum Refresh {
    /// The index covers all files.
    Keep,
    /// Files from this one on are missing.
    Append { from: usize },
    /// There is no index, or the base files are others.
    Rebuild,
}

/// The index was built from these base files, and from no more files than
/// there are.
pub open spec fn still_fits(index: IndexState, base_key: (usize, usize), n: int) -> bool {
    index.base_key == base_key && index.indexed <= n
}

pub open spec fn refresh_of(
    index: Option<IndexState>,
    base_key: (usize, usize),
    n: int,
) -> Refresh {
    match index {
        Some(index) => if !still_fits(index, base_key, n) {
            Refresh::Rebuild
        } else if index.indexed < n {
            Refresh::Append { from: index.indexed }
        } else {
            Refresh::Keep
        },
        None => Refresh::Rebuild,
    }
}

/// Works out what has to happen before a search over `n` files; there is none
/// while the GPU is not used or there are no files.
pub fn plan_refresh(
    enabled: bool,
    index: Option<IndexState>,
    base_key: (usize, usize),
    n: usize,
) -> (r: Option<Refresh>)
    ensures
        r == if enabled && n > 0 {
            Some(refresh_of(index, base_key, n as int))
        } else {
            None
        },
{
    if !enabled || n == 0 {
        return None;
    }
    match index {
        Some(ix) => if ix.base_key.0 != base_key.0 || ix.base_key.1 != base_key.1 || ix.indexed > n {
            Some(Refresh::Rebuild)
        } else if ix.indexed < n {
            Some(Refresh::Append { from: ix.indexed })
        } else {
            Some(Refresh::Keep)
        },
        None => Some(Refresh::Rebuild),
    }
}

/// What follows an append: nothing, or a new index where there was no room.
pub fn after_append(done: bool) -> (r: Option<Refresh>)
    ensures
        r == if done {
            None
        } else {
            Some(Refresh::Rebuild)
        },
{
    if done {
        None
    } else {
        Some(Refresh::Rebuild)
    }
}

/// Boosts have to be sent: paths were sent, or boosts have changed since.
pub open spec fn sends_boosts(index: Option<IndexState>, refresh: Refresh, generation: int) -> bool {
    refresh != Refresh::Keep || index->0.boost_gen != generation
}

/// The index after a refresh, and whether boosts have to be sent.
pub fn refreshed(
    index: Option<IndexState>,
    refresh: Refresh,
    base_key: (usize, usize),
    n: usize,
    generation: u64,
) -> (r: (IndexState, bool))
    requires
        refresh == Refresh::Rebuild || refresh == refresh_of(index, base_key, n as int),
    ensures
        r.0 == (IndexState { base_key, indexed: n, boost_gen: generation }),
        r.1 == sends_boosts(index, refresh, generation as int),
{
    let stale = match refresh {
        Refresh::Keep => match index {
            Some(ix) => ix.boost_gen != generation,
            None => true,
        },
        _ => true,
    };
    (IndexState { base_key, indexed: n, boost_gen: generation }, stale)
}

/// What is known of the GPU, given the index if there is one.
pub fn status(enabled: bool, adapter: Option<String>, index: Option<IndexState>) -> (r: GpuStatus)
    ensures
        r.compiled,
        r.enabled == enabled,
        r.adapter == adapter,
        r.indexed_files == match index {
            Some(index) => Some(index.indexed),
            None => None,
        },
{
    GpuStatus {
        compiled: true,
        enabled,
        adapter,
        indexed_files: match index {
            Some(index) => Some(index.indexed),
            None => None,
        },
    }
}

/// After a refresh the index covers all files, and nothing is left to do until
/// files or boosts change.
pub proof fn law_refresh_settles(after: IndexState)
    ensures
        refresh_of(Some(after), after.base_key, after.indexed as int) == Refresh::Keep,
        !sends_boosts(Some(after), Refresh::Keep, after.boost_gen as int),
{
}

/// Whatever bumps the generation gets boosts sent before the next search.
pub proof fn law_bump_sends_boosts(index: IndexState, refresh: Refresh)
    ensures
        sends_boosts(Some(index), refresh, next_boost_gen(index.boost_gen as int)),
{
}

} // verus!
