//! What the GPU matcher keeps on the host, and what it does next.

use crate::gpu::pack;
use crate::gpu::pack::{pack_paths, pack_paths_soa};
use vstd::prelude::*;

verus! {

/// Needle bytes that are looked at.
pub const MAX_NEEDLE: usize = 64;

/// Which shader scores the paths.
#[derive(Clone, Copy, Debug, PartialEq, Eq, Structural)]
pub enum Kernel {
    ThreadPerItem,
    LanePerThread,
    Subgroup,
    Scalar,
}

/// Room left for paths that are appended.
#[derive(Clone, Copy, Debug)]
pub struct Reserve {
    pub items: usize,
    pub bytes: usize,
}

/// The room left for appended paths does not do.
#[derive(Clone, Copy, Debug, PartialEq, Eq, Structural)]
pub struct ReserveExhausted;

/// Weights of a fuzzy match.
#[derive(Clone, Copy, Debug)]
pub struct Scoring {
    pub match_score: u16,
    pub mismatch_penalty: u16,
    pub gap_open_penalty: u16,
    pub gap_extend_penalty: u16,
    pub prefix_bonus: u16,
    pub delimiter_bonus: u16,
    pub capitalization_bonus: u16,
    pub matching_case_bonus: u16,
    pub exact_match_bonus: u16,
}

/// What the shaders are told about a search, field for field.
#[derive(Clone, Copy, Debug)]
pub struct Params {
    pub needle_len: u32,
    pub item_count: u32,
    pub match_score: u32,
    pub mismatch_penalty: u32,
    pub gap_open: u32,
    pub gap_extend: u32,
    pub prefix_bonus: u32,
    pub delimiter_bonus: u32,
    pub capitalization_bonus: u32,
    pub matching_case_bonus: u32,
    pub exact_match_bonus: u32,
    pub thread_count: u32,
    pub reserved: u32,
    pub top_k: u32,
    pub tie_bucket: u32,
}

/// How full the tables on the GPU are, and how much they can hold.
#[derive(Clone, Copy, Debug)]
pub struct Tables {
    pub item_count: usize,
    pub thread_count: usize,
    pub hay_words: usize,
    pub soa_words: usize,
    pub item_cap: usize,
    pub hay_cap_words: usize,
    pub soa_cap_words: usize,
}

/// Words to be written into the tables, and where.
pub struct Upload {
    pub hay_at: usize,
    pub hay: Vec<u32>,
    /// First item; an item takes two words.
    pub items_at: usize,
    pub items: Vec<[u32; 2]>,
    pub soa_at: usize,
    pub soa: Vec<u32>,
    pub ids_at: usize,
    pub soa_ids: Vec<u32>,
    pub soa_start: Vec<u32>,
    pub fname: Vec<u32>,
}

/// Bytes that each buffer takes.
#[derive(Clone, Copy, Debug)]
pub struct BufferSizes {
    pub hay: u64,
    pub items: u64,
    pub soa: u64,
    pub soa_ids: u64,
    /// Of each buffer that holds a word per item.
    pub per_item: u64,
    pub staging: u64,
    pub survivors: u64,
}

pub open spec fn at_least_one(n: int) -> int {
    if n > 1 {
        n
    } else {
        1
    }
}

pub open spec fn at_least_four(n: int) -> int {
    if n > 4 {
        n
    } else {
        4
    }
}

/// Threads that tables for `item_cap` paths have room for.
pub open spec fn thread_cap(item_cap: int) -> int {
    (item_cap + 63) / 64 * 64 + 64
}

/// What the tables hold fits into them.
pub open spec fn within(t: Tables) -> bool {
    &&& t.item_count <= t.item_cap
    &&& t.hay_words <= t.hay_cap_words
    &&& t.soa_words <= t.soa_cap_words
    &&& t.thread_count <= thread_cap(t.item_cap as int)
    &&& t.item_cap + 128 <= usize::MAX
}

/// File name offsets as they are uploaded: no offset reads as `u32::MAX`.
pub open spec fn fname_words(fname_off: Option<&[u32]>, n: nat) -> Seq<u32> {
    match fname_off {
        Some(f) => f@,
        None => Seq::new(n, |i: int| u32::MAX),
    }
}

/// Starts moved behind the words that are there already.
pub open spec fn moved(starts: Seq<u32>, by: int) -> Seq<u32> {
    Seq::new(starts.len(), |i: int| (starts[i] + by) as u32)
}

/// `upload` puts the paths behind what the tables hold.
pub open spec fn is_upload(
    paths: Seq<String>,
    fname_off: Option<&[u32]>,
    sort: bool,
    t: Tables,
    upload: Upload,
) -> bool {
    &&& upload.hay_at == t.hay_words
    &&& upload.hay@ == pack::packed_words(paths, paths.len() as int).push(0)
    &&& upload.items_at == t.item_count
    &&& upload.items@.len() == paths.len()
    &&& forall|i: int|
        0 <= i < paths.len() ==> (#[trigger] upload.items@[i])@ == pack::packed_item(
            paths,
            i,
            t.hay_words as int,
        )@
    &&& upload.soa_at == t.soa_words
    &&& upload.ids_at == t.thread_count
    &&& interleaves(paths, sort, t.item_count as int, t.soa_words as int, upload)
    &&& upload.fname@ == fname_words(fname_off, paths.len())
}

/// The prefilter's part of an upload.
pub open spec fn interleaves(
    paths: Seq<String>,
    sort: bool,
    id0: int,
    soa_words: int,
    upload: Upload,
) -> bool {
    exists|order: Seq<usize>, starts: Seq<u32>| #[trigger]
        pack::is_soa(paths, order, id0, upload.soa@, starts, upload.soa_ids@)
            && pack::is_thread_order(paths, order, sort) && upload.soa_start@ == moved(
            starts,
            soa_words,
        )
}

/// The tables after an upload.
pub open spec fn is_loaded(before: Tables, after: Tables, n: nat, upload: Upload) -> bool {
    &&& after.item_count == before.item_count + n
    &&& after.thread_count == before.thread_count + upload.soa_ids@.len()
    &&& after.hay_words == before.hay_words + upload.hay@.len()
    &&& after.soa_words == before.soa_words + upload.soa@.len()
    &&& after.item_cap == before.item_cap
    &&& after.hay_cap_words == before.hay_cap_words
    &&& after.soa_cap_words == before.soa_cap_words
}

/// Tables that hold nothing.
pub open spec fn is_bare(t: Tables) -> bool {
    t.item_count == 0 && t.thread_count == 0 && t.hay_words == 0 && t.soa_words == 0
}

/// The capacities of tables made for an upload with a reserve.
pub open spec fn has_room(t: Tables, n: nat, upload: Upload, reserve: Reserve) -> bool {
    &&& t.item_cap == n + reserve.items
    &&& t.hay_cap_words == upload.hay@.len() + pack::words_for(reserve.bytes as int)
        + reserve.items
    &&& t.soa_cap_words == upload.soa@.len() + pack::words_for(reserve.bytes as int) * 2
        + reserve.items * 64
}

fn words_for(bytes: usize) -> (r: usize)
    ensures
        r == pack::words_for(bytes as int),
{
    bytes / 4 + if bytes % 4 == 0 {
        0
    } else {
        1
    }
}

fn offsets(fname_off: Option<&[u32]>, n: usize) -> (r: Vec<u32>)
    ensures
        r@ == fname_words(fname_off, n as nat),
{
    match fname_off {
        Some(f) => vstd::slice::slice_to_vec(f),
        None => {
            let mut out: Vec<u32> = Vec::new();
            let mut i: usize = 0;
            while i < n
                invariant
                    i <= n,
                    out@ == Seq::new(i as nat, |i: int| u32::MAX),
                decreases n - i,
            {
                out.push(u32::MAX);
                assert(out@ =~= Seq::new((i + 1) as nat, |i: int| u32::MAX));
                i += 1;
            }
            out
        },
    }
}

fn shift(starts: &Vec<u32>, by: usize) -> (r: Vec<u32>)
    requires
        forall|i: int| 0 <= i < starts@.len() ==> (#[trigger] starts@[i]) + by <= u32::MAX,
    ensures
        r@ == moved(starts@, by as int),
{
    let mut out: Vec<u32> = Vec::new();
    let mut i: usize = 0;
    while i < starts.len()
        invariant
            i <= starts@.len(),
            forall|i: int| 0 <= i < starts@.len() ==> (#[trigger] starts@[i]) + by <= u32::MAX,
            out@ == moved(starts@, by as int).take(i as int),
        decreases starts@.len() - i,
    {
        assert(starts@[i as int] + by <= u32::MAX);
        out.push(starts[i] + by as u32);
        assert(out@ =~= moved(starts@, by as int).take(i + 1));
        i += 1;
    }
    assert(out@ =~= moved(starts@, by as int));
    out
}

/// Every start lies in front of the end of the words.
proof fn lemma_starts_bounded(
    paths: Seq<String>,
    order: Seq<usize>,
    sort: bool,
    id0: int,
    soa: Seq<u32>,
    starts: Seq<u32>,
    ids: Seq<u32>,
)
    requires
        pack::is_soa(paths, order, id0, soa, starts, ids),
        pack::is_thread_order(paths, order, sort),
        paths.len() <= usize::MAX,
    ensures
        forall|i: int| 0 <= i < starts.len() ==> (#[trigger] starts[i]) < soa.len() + 64,
{
    assert forall|i: int| 0 <= i < starts.len() implies (#[trigger] starts[i]) < soa.len() + 64 by {
        crate::sorting::lemma_permutation_covers(order, paths.len(), i as usize);
        let t = choose|t: int| 0 <= t < order.len() && order[t] == i as usize;
        assert(starts[(order[t]) as int] == pack::group_base(paths, order, t / 64) + t % 64);
        pack::lemma_base_within(paths, order, t / 64);
    }
}

/// The paths can be put behind what the tables hold.
pub open spec fn can_load(paths: Seq<String>, sort: bool, t: Tables) -> bool {
    &&& pack::packs(paths, t.hay_words as int, t.item_count as int, sort)
    &&& forall|order: Seq<usize>| #[trigger]
        pack::is_thread_order(paths, order, sort) ==> t.soa_words + pack::group_base(
            paths,
            order,
            pack::group_count(paths.len() as int),
        ) + 64 <= u32::MAX
    &&& t.thread_count + paths.len() + 64 <= u32::MAX
    &&& t.hay_words < u32::MAX
}

fn load(paths: &[String], fname_off: Option<&[u32]>, sort: bool, t: &Tables) -> (upload: Upload)
    requires
        can_load(paths@, sort, *t),
    ensures
        is_upload(paths@, fname_off, sort, *t, upload),
        t.soa_words + upload.soa@.len() + 64 <= u32::MAX,
        upload.soa_ids@.len() <= paths@.len() + 63,
        upload.soa_ids@.len() % 64 == 0,
        upload.hay@.len() <= u32::MAX,
{
    let (hay, items) = pack_paths(paths, t.hay_words);
    let (soa, starts, soa_ids) = pack_paths_soa(paths, t.item_count, sort);
    let n: usize = paths.len();
    let ghost order = choose|order: Seq<usize>| #[trigger]
        pack::is_thread_order(paths@, order, sort) && pack::is_soa(
            paths@,
            order,
            t.item_count as int,
            soa@,
            starts@,
            soa_ids@,
        );
    proof {
        pack::lemma_base_within(paths@, order, pack::group_count(n as int));
        lemma_starts_bounded(
            paths@,
            order,
            sort,
            t.item_count as int,
            soa@,
            starts@,
            soa_ids@,
        );
    }
    let soa_start = shift(&starts, t.soa_words);
    let fname = offsets(fname_off, n);
    let upload = Upload {
        hay_at: t.hay_words,
        hay,
        items_at: t.item_count,
        items,
        soa_at: t.soa_words,
        soa,
        ids_at: t.thread_count,
        soa_ids,
        soa_start,
        fname,
    };
    assert(interleaves(paths@, sort, t.item_count as int, t.soa_words as int, upload)) by {
        assert(pack::is_soa(
            paths@,
            order,
            t.item_count as int,
            upload.soa@,
            starts@,
            upload.soa_ids@,
        ));
    }
    upload
}

impl Tables {
    /// Tables for some paths, with room for more, and what is written into
    /// them.
    pub fn with_reserve(paths: &[String], fname_off: Option<&[u32]>, reserve: Reserve) -> (r: (
        Tables,
        Upload,
    ))
        requires
            pack::packs(paths@, 0, 0, true),
            paths@.len() + 64 <= u32::MAX,
            paths@.len() + reserve.items + 128 <= usize::MAX,
            u32::MAX + pack::words_for(reserve.bytes as int) * 2 + reserve.items * 64
                <= usize::MAX,
        ensures
            exists|bare: Tables| #[trigger]
                is_bare(bare) && is_upload(paths@, fname_off, true, bare, r.1) && is_loaded(
                    bare,
                    r.0,
                    paths@.len(),
                    r.1,
                ),
            has_room(r.0, paths@.len(), r.1, reserve),
            within(r.0),
    {
        let n: usize = paths.len();
        let bare = Tables {
            item_count: 0,
            thread_count: 0,
            hay_words: 0,
            soa_words: 0,
            item_cap: n + reserve.items,
            hay_cap_words: 0,
            soa_cap_words: 0,
        };
        let upload = load(paths, fname_off, true, &bare);
        let spare: usize = words_for(reserve.bytes);
        let hay_cap_words: usize = upload.hay.len() + spare + reserve.items;
        let soa_cap_words: usize = upload.soa.len() + spare * 2 + reserve.items * 64;
        let tables = Tables {
            item_count: n,
            thread_count: upload.soa_ids.len(),
            hay_words: upload.hay.len(),
            soa_words: upload.soa.len(),
            item_cap: n + reserve.items,
            hay_cap_words,
            soa_cap_words,
        };
        let ghost start = Tables { hay_cap_words, soa_cap_words, ..bare };
        assert(is_bare(start));
        assert(interleaves(paths@, true, 0, 0, upload));
        (tables, upload)
    }

    /// Whether appended paths go beyond what the tables have room for.
    pub open spec fn overflows(self, n: nat, upload: Upload) -> bool {
        ||| self.item_count + n > self.item_cap
        ||| self.hay_words + upload.hay@.len() > self.hay_cap_words
        ||| self.soa_words + upload.soa@.len() > self.soa_cap_words
        ||| self.thread_count + upload.soa_ids@.len() > thread_cap(self.item_cap as int)
    }

    /// Whether the paths can be put behind what the tables hold.
    pub fn can_take(&self, paths: &[String], sort: bool) -> (r: bool)
        ensures
            r == can_load(paths@, sort, *self),
    {
        let n: u64 = paths.len() as u64;
        let limit: u64 = u32::MAX as u64;
        if self.thread_count as u64 > limit || n > limit || self.thread_count as u64 + n + 64
            > limit || self.hay_words as u64 >= limit {
            return false;
        }
        pack::can_pack(paths, self.hay_words, self.item_count, sort) && pack::soa_can_fit(
            paths,
            self.soa_words,
            sort,
        )
    }

    /// Puts paths behind those that are there; ids go on from `item_count`.
    /// Nothing changes where the room does not do.
    pub fn append(&mut self, paths: &[String], fname_off: Option<&[u32]>) -> (r: Result<
        Upload,
        ReserveExhausted,
    >)
        requires
            within(*old(self)),
            can_load(paths@, false, *old(self)),
        ensures
            within(*final(self)),
            match r {
                Ok(upload) => is_upload(paths@, fname_off, false, *old(self), upload) && !old(
                    self).overflows(paths@.len(), upload) && is_loaded(
                    *old(self),
                    *final(self),
                    paths@.len(),
                    upload,
                ),
                Err(_) => *final(self) == *old(self) && exists|upload: Upload| #[trigger]
                    is_upload(paths@, fname_off, false, *old(self), upload) && old(
                        self).overflows(paths@.len(), upload),
            },
    {
        let n: usize = paths.len();
        let upload = load(paths, fname_off, false, self);
        let groups: usize = self.item_cap / 64 + if self.item_cap % 64 == 0 {
            0
        } else {
            1
        };
        let threads: u64 = self.thread_count as u64 + upload.soa_ids.len() as u64;
        if n > self.item_cap - self.item_count || upload.hay.len() > self.hay_cap_words
            - self.hay_words || upload.soa.len() > self.soa_cap_words - self.soa_words || threads
            > groups as u64 * 64 + 64 {
            assert(old(self).overflows(paths@.len(), upload));
            return Err(ReserveExhausted);
        }
        self.item_count = self.item_count + n;
        self.thread_count = threads as usize;
        self.hay_words = self.hay_words + upload.hay.len();
        self.soa_words = self.soa_words + upload.soa.len();
        Ok(upload)
    }

    /// How large the buffers are made.
    pub fn buffer_sizes(&self) -> (r: BufferSizes)
        requires
            within(*self),
            self.hay_cap_words + 1 <= u64::MAX / 16,
            self.soa_cap_words <= u64::MAX / 16,
            self.item_cap + 128 <= u64::MAX / 16,
        ensures
            r.hay == (self.hay_cap_words + 1) * 4,
            r.items == at_least_one(self.item_cap as int) * 8,
            r.soa == at_least_four(self.soa_cap_words * 4),
            r.soa_ids == thread_cap(self.item_cap as int) * 4,
            r.per_item == at_least_one(self.item_cap as int) * 4,
            r.staging == at_least_one(self.item_cap as int) * 8,
            r.survivors == at_least_one(self.item_cap as int) * 16,
    {
        let n1: u64 = if self.item_cap > 1 {
            self.item_cap as u64
        } else {
            1
        };
        let soa: u64 = self.soa_cap_words as u64 * 4;
        let groups: u64 = self.item_cap as u64 / 64 + if self.item_cap % 64 == 0 {
            0
        } else {
            1
        };
        BufferSizes {
            hay: (self.hay_cap_words as u64 + 1) * 4,
            items: n1 * 8,
            soa: if soa > 4 {
                soa
            } else {
                4
            },
            soa_ids: (groups * 64 + 64) * 4,
            per_item: n1 * 4,
            staging: n1 * 8,
            survivors: n1 * 16,
        }
    }

    /// Leading boosts that are written: those of paths that are there.
    pub fn boost_count(&self, boosts: usize) -> (n: usize)
        ensures
            n == crate::gpu::topk::lesser(boosts as int, self.item_count as int),
    {
        if boosts < self.item_count {
            boosts
        } else {
            self.item_count
        }
    }
}

} // verus!
