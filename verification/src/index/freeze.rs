//! Freezing the files of a [`LayerBuilder`] into a layer.

use crate::bytes;
use crate::bytes::Rank;
use crate::index::codec::{LayerSnapshot, SnapshotLayout};
use crate::index::snapshot;
use crate::index::snapshot::{last_segment_offset, EntryRecord, LayerBuilder, PendingEntry};
use crate::simd_path;
use crate::simd_path::ChunkedPathStoreBuilder;
use crate::sorting;
use crate::sorting::Ranking;
use crate::types;
use crate::types::{DirItem, FileItem};
use vstd::prelude::*;

verus! {

/// `(dir, name)` order of the pending files.
pub struct EntryRanking {}

impl Ranking<PendingEntry> for EntryRanking {
    open spec fn admits(&self, a: PendingEntry) -> bool {
        a.wf()
    }

    open spec fn le(&self, a: PendingEntry, b: PendingEntry) -> bool {
        types::key_le(a.key(), b.key())
    }

    proof fn total(&self, a: PendingEntry, b: PendingEntry) {
        types::lemma_key_total(a.key(), b.key());
    }

    proof fn transitive(&self, a: PendingEntry, b: PendingEntry, c: PendingEntry) {
        types::lemma_key_transitive(a.key(), b.key(), c.key());
    }

    fn order(&self, a: &PendingEntry, b: &PendingEntry) -> Rank {
        proof {
            bytes::lemma_after_last_slash(a.path@);
            bytes::lemma_after_last_slash(b.path@);
        }
        types::path_order(
            a.path.as_slice(),
            a.filename_offset as usize,
            b.path.as_slice(),
            b.filename_offset as usize,
        )
    }
}

/// A directory, as the front of the path of a pending file.
#[derive(Clone, Copy)]
pub struct DirRef {
    pub entry: usize,
    pub end: usize,
}

pub open spec fn ref_text(entries: Seq<PendingEntry>, r: DirRef) -> Seq<u8> {
    entries[r.entry as int].path@.take(r.end as int)
}

pub open spec fn is_ref(entries: Seq<PendingEntry>, r: DirRef) -> bool {
    r.entry < entries.len() && bytes::is_cut(entries[r.entry as int].path@, r.end as int)
}

/// Byte order of directories.
pub struct DirRanking<'b> {
    pub entries: &'b Vec<PendingEntry>,
}

impl<'b> Ranking<DirRef> for DirRanking<'b> {
    open spec fn admits(&self, a: DirRef) -> bool {
        is_ref(self.entries@, a)
    }

    open spec fn le(&self, a: DirRef, b: DirRef) -> bool {
        bytes::lex_le(ref_text(self.entries@, a), ref_text(self.entries@, b))
    }

    proof fn total(&self, a: DirRef, b: DirRef) {
        bytes::lemma_lex_total(ref_text(self.entries@, a), ref_text(self.entries@, b));
    }

    proof fn transitive(&self, a: DirRef, b: DirRef, c: DirRef) {
        bytes::lemma_lex_transitive(
            ref_text(self.entries@, a),
            ref_text(self.entries@, b),
            ref_text(self.entries@, c),
        );
    }

    fn order(&self, a: &DirRef, b: &DirRef) -> Rank {
        let ta = ref_slice(self.entries, a);
        let tb = ref_slice(self.entries, b);
        proof {
            bytes::lemma_lex_total(ta@, tb@);
            if bytes::lex_le(ta@, tb@) && bytes::lex_le(tb@, ta@) {
                bytes::lemma_lex_antisymmetric(ta@, tb@);
            }
            bytes::lemma_lex_reflexive(ta@);
        }
        bytes::lex_order(ta, tb)
    }
}

fn ref_slice<'b>(entries: &'b Vec<PendingEntry>, r: &DirRef) -> (s: &'b [u8])
    requires
        is_ref(entries@, *r),
    ensures
        s@ == ref_text(entries@, *r),
{
    let s = vstd::slice::slice_subrange(entries[r.entry].path.as_slice(), 0, r.end);
    assert(s@ =~= ref_text(entries@, *r));
    s
}

/// Some of the directories is `text`.
pub open spec fn has_ref(entries: Seq<PendingEntry>, refs: Seq<DirRef>, text: Seq<u8>) -> bool {
    exists|j: int| 0 <= j < refs.len() && ref_text(entries, #[trigger] refs[j]) == text
}

/// All directories of entry `e` are among `refs`.
pub open spec fn has_ancestors(entries: Seq<PendingEntry>, refs: Seq<DirRef>, e: int) -> bool {
    forall|k: int|
        bytes::is_cut(entries[e].path@, k) ==> has_ref(
            entries,
            refs,
            #[trigger] entries[e].path@.take(k),
        )
}

pub open spec fn ref_costs(refs: Seq<DirRef>) -> Seq<nat> {
    Seq::new(refs.len(), |j: int| simd_path::chunk_cost(refs[j].end as nat))
}

pub open spec fn dir_budget(entries: Seq<PendingEntry>, kept: Seq<usize>) -> Seq<nat> {
    Seq::new(kept.len(), |x: int| dirs_cost(entries[kept[x] as int].path@))
}

pub open spec fn file_costs(entries: Seq<PendingEntry>, kept: Seq<usize>) -> Seq<nat> {
    Seq::new(kept.len(), |x: int| simd_path::chunk_cost(entries[kept[x] as int].path@.len()))
}

/// What the directories of a path can take of the index table.
pub open spec fn dirs_cost(path: Seq<u8>) -> nat {
    simd_path::chunk_cost(path.len()) * bytes::slash_count(path, path.len() as int)
}

proof fn lemma_refs_grow(
    entries: Seq<PendingEntry>,
    before: Seq<DirRef>,
    after: Seq<DirRef>,
    text: Seq<u8>,
)
    requires
        before.is_prefix_of(after),
        has_ref(entries, before, text),
    ensures
        has_ref(entries, after, text),
{
    let j = choose|j: int|
        0 <= j < before.len() && ref_text(entries, #[trigger] before[j]) == text;
    assert(after[j] == before[j]);
}

/// Appends every directory of entry `e`, the root included.
fn push_ancestors(entries: &Vec<PendingEntry>, e: usize, refs: &mut Vec<DirRef>)
    requires
        e < entries@.len(),
        entries@[e as int].wf(),
        forall|j: int| 0 <= j < old(refs)@.len() ==> is_ref(entries@, #[trigger] old(refs)@[j]),
    ensures
        old(refs)@.is_prefix_of(final(refs)@),
        forall|j: int| 0 <= j < final(refs)@.len() ==> is_ref(entries@, #[trigger] final(refs)@[j]),
        has_ancestors(entries@, final(refs)@, e as int),
        sorting::total(ref_costs(final(refs)@)) <= sorting::total(ref_costs(old(refs)@))
            + dirs_cost(entries@[e as int].path@),
        final(refs)@.len() > 0,
{
    let ghost path = entries@[e as int].path@;
    let ghost cost = simd_path::chunk_cost(path.len());
    let ghost start = refs@;
    let mut end: usize = entries[e].filename_offset as usize;
    proof {
        bytes::lemma_after_last_slash(path);
        bytes::lemma_slash_count_between(path, end as int, path.len() as int);
        assert(refs@.take(start.len() as int) =~= start);
    }
    while end > 0
        invariant
            e < entries@.len(),
            path == entries@[e as int].path@,
            cost == simd_path::chunk_cost(path.len()),
            bytes::is_cut(path, end as int),
            start.is_prefix_of(refs@),
            forall|j: int| 0 <= j < refs@.len() ==> is_ref(entries@, #[trigger] refs@[j]),
            forall|k: int|
                end < k <= path.len() && bytes::is_cut(path, k) ==> has_ref(
                    entries@,
                    refs@,
                    #[trigger] path.take(k),
                ),
            sorting::total(ref_costs(refs@)) + cost * bytes::slash_count(path, end as int)
                <= sorting::total(ref_costs(start)) + cost * bytes::slash_count(
                path,
                path.len() as int,
            ),
        decreases end,
    {
        let ghost before = refs@;
        let here = DirRef { entry: e, end };
        refs.push(here);
        let next: usize = bytes::slash_before(entries[e].path.as_slice(), end - 1);
        proof {
            assert(ref_costs(refs@).drop_last() =~= ref_costs(before));
            assert(simd_path::chunk_cost(end as nat) <= cost);
            let head = path.take(end - 1);
            bytes::lemma_after_last_slash(head);
            assert(forall|i: int| next <= i < end - 1 ==> path[i] == head[i]);
            bytes::lemma_slash_count_between(path, next as int, end - 1);
            let n = bytes::slash_count(path, next as int);
            assert(bytes::slash_count(path, end as int) == n + 1);
            assert(cost * (n + 1) == cost * n + cost) by (nonlinear_arith);
            if next > 0 {
                assert(head[next - 1] == path[next - 1]);
            }
            assert forall|k: int| next < k <= path.len() && bytes::is_cut(path, k) implies has_ref(
                entries@,
                refs@,
                #[trigger] path.take(k),
            ) by {
                if k > end {
                    lemma_refs_grow(entries@, before, refs@, path.take(k));
                } else if k == end {
                    assert(ref_text(entries@, refs@[before.len() as int]) == path.take(k));
                } else {
                    assert(path[k - 1] == head[k - 1]);
                }
            }
        }
        end = next;
    }
    let ghost before = refs@;
    refs.push(DirRef { entry: e, end: 0 });
    proof {
        assert(ref_costs(refs@).drop_last() =~= ref_costs(before));
        assert(bytes::slash_count(path, 0) == 0);
        assert(cost * 0 == 0) by (nonlinear_arith);
        assert forall|k: int| bytes::is_cut(path, k) implies has_ref(
            entries@,
            refs@,
            #[trigger] path.take(k),
        ) by {
            if k > 0 {
                lemma_refs_grow(entries@, before, refs@, path.take(k));
            } else {
                assert(ref_text(entries@, refs@[before.len() as int]) == path.take(k));
            }
        }
    }
}

/// The directories of the kept files, each at least once.
fn ancestor_dirs(entries: &Vec<PendingEntry>, kept: &Vec<usize>) -> (refs: Vec<DirRef>)
    requires
        forall|i: int| 0 <= i < entries@.len() ==> (#[trigger] entries@[i]).wf(),
        forall|x: int| 0 <= x < kept@.len() ==> (#[trigger] kept@[x]) < entries@.len(),
    ensures
        forall|j: int| 0 <= j < refs@.len() ==> is_ref(entries@, #[trigger] refs@[j]),
        forall|x: int|
            0 <= x < kept@.len() ==> has_ancestors(entries@, refs@, #[trigger] kept@[x] as int),
        sorting::total(ref_costs(refs@)) <= sorting::total(dir_budget(entries@, kept@)),
        kept@.len() == 0 ==> refs@.len() == 0,
{
    let mut refs: Vec<DirRef> = Vec::new();
    let mut i: usize = 0;
    proof {
        assert(ref_costs(refs@) =~= Seq::empty());
        assert(dir_budget(entries@, kept@).take(0) =~= Seq::empty());
    }
    while i < kept.len()
        invariant
            i <= kept@.len(),
            i == 0 ==> refs@.len() == 0,
            forall|k: int| 0 <= k < entries@.len() ==> (#[trigger] entries@[k]).wf(),
            forall|x: int| 0 <= x < kept@.len() ==> (#[trigger] kept@[x]) < entries@.len(),
            forall|j: int| 0 <= j < refs@.len() ==> is_ref(entries@, #[trigger] refs@[j]),
            forall|x: int|
                0 <= x < i ==> has_ancestors(entries@, refs@, #[trigger] kept@[x] as int),
            sorting::total(ref_costs(refs@)) <= sorting::total(
                dir_budget(entries@, kept@).take(i as int),
            ),
        decreases kept@.len() - i,
    {
        let e: usize = kept[i];
        let ghost before = refs@;
        proof {
            sorting::lemma_total_step(dir_budget(entries@, kept@), i as int);
            bytes::lemma_after_last_slash(entries@[e as int].path@);
        }
        let mut repeated: bool = false;
        if i > 0 {
            let p: usize = kept[i - 1];
            proof {
                bytes::lemma_after_last_slash(entries@[p as int].path@);
            }
            let dir = vstd::slice::slice_subrange(
                entries[e].path.as_slice(),
                0,
                entries[e].filename_offset as usize,
            );
            let prev_dir = vstd::slice::slice_subrange(
                entries[p].path.as_slice(),
                0,
                entries[p].filename_offset as usize,
            );
            repeated = bytes::same_bytes(dir, prev_dir);
            if repeated {
                proof {
                    let path = entries@[e as int].path@;
                    let prev = entries@[p as int].path@;
                    assert(has_ancestors(entries@, refs@, kept@[i - 1] as int));
                    assert forall|k: int| bytes::is_cut(path, k) implies has_ref(
                        entries@,
                        refs@,
                        #[trigger] path.take(k),
                    ) by {
                        assert(k <= dir@.len());
                        if k > 0 {
                            assert(dir@[k - 1] == path[k - 1]);
                            assert(prev_dir@[k - 1] == prev[k - 1]);
                        }
                        assert(bytes::is_cut(prev, k));
                        assert(path.take(k) =~= prev.take(k)) by {
                            assert forall|m: int| 0 <= m < k implies path[m] == prev[m] by {
                                assert(dir@[m] == path[m]);
                                assert(prev_dir@[m] == prev[m]);
                            }
                        }
                        assert(has_ref(entries@, refs@, prev.take(k)));
                    }
                }
            }
        }
        if !repeated {
            push_ancestors(entries, e, &mut refs);
            proof {
                assert forall|x: int| 0 <= x < i implies has_ancestors(
                    entries@,
                    refs@,
                    #[trigger] kept@[x] as int,
                ) by {
                    let path = entries@[kept@[x] as int].path@;
                    assert(has_ancestors(entries@, before, kept@[x] as int));
                    assert forall|k: int| bytes::is_cut(path, k) implies has_ref(
                        entries@,
                        refs@,
                        #[trigger] path.take(k),
                    ) by {
                        lemma_refs_grow(entries@, before, refs@, path.take(k));
                    }
                }
            }
        }
        i += 1;
    }
    assert(dir_budget(entries@, kept@).take(i as int) =~= dir_budget(entries@, kept@));
    refs
}

/// The directories in byte order, each once.
pub open spec fn ascending_dirs(entries: Seq<PendingEntry>, dirs: Seq<DirRef>) -> bool {
    &&& forall|j: int| 0 <= j < dirs.len() ==> is_ref(entries, #[trigger] dirs[j])
    &&& forall|x: int, y: int|
        0 <= x < y < dirs.len() ==> !bytes::lex_le(
            ref_text(entries, #[trigger] dirs[y]),
            ref_text(entries, #[trigger] dirs[x]),
        )
}

fn sorted_dirs(entries: &Vec<PendingEntry>, refs: &Vec<DirRef>) -> (dirs: Vec<DirRef>)
    requires
        forall|j: int| 0 <= j < refs@.len() ==> is_ref(entries@, #[trigger] refs@[j]),
    ensures
        ascending_dirs(entries@, dirs@),
        forall|j: int|
            0 <= j < refs@.len() ==> has_ref(
                entries@,
                dirs@,
                ref_text(entries@, #[trigger] refs@[j]),
            ),
        refs@.len() == 0 ==> dirs@.len() == 0,
        sorting::total(ref_costs(dirs@)) <= sorting::total(ref_costs(refs@)),
{
    let ranking = DirRanking { entries };
    let order = sorting::stable_order(refs.as_slice(), &ranking);
    proof {
        sorting::lemma_stable_order_ranks(refs@, ranking, order@);
    }
    let picked = sorting::distinct(refs.as_slice(), &ranking, &order);
    let mut dirs: Vec<DirRef> = Vec::new();
    let mut i: usize = 0;
    while i < picked.len()
        invariant
            i <= picked@.len(),
            forall|x: int| 0 <= x < picked@.len() ==> (#[trigger] picked@[x]) < refs@.len(),
            dirs@.len() == i,
            forall|x: int| 0 <= x < i ==> dirs@[x] == refs@[picked@[x] as int],
        decreases picked@.len() - i,
    {
        dirs.push(refs[picked[i]]);
        i += 1;
    }
    proof {
        assert forall|x: int, y: int| 0 <= x < y < dirs@.len() implies !bytes::lex_le(
            ref_text(entries@, #[trigger] dirs@[y]),
            ref_text(entries@, #[trigger] dirs@[x]),
        ) by {
            assert(!ranking.le(refs@[picked@[y] as int], refs@[picked@[x] as int]));
        }
        assert forall|j: int| 0 <= j < refs@.len() implies has_ref(
            entries@,
            dirs@,
            ref_text(entries@, #[trigger] refs@[j]),
        ) by {
            assert(sorting::has_level(refs@, ranking, picked@, refs@[j]));
            let x = choose|x: int|
                0 <= x < picked@.len() && sorting::same_rank(
                    ranking,
                    refs@[j],
                    refs@[#[trigger] picked@[x] as int],
                );
            bytes::lemma_lex_antisymmetric(
                ref_text(entries@, refs@[j]),
                ref_text(entries@, refs@[picked@[x] as int]),
            );
            assert(ref_text(entries@, dirs@[x]) == ref_text(entries@, refs@[j]));
        }
        assert forall|x: int, y: int| 0 <= x < y < picked@.len() implies #[trigger] picked@[x]
            != #[trigger] picked@[y] by {
            assert(!ranking.le(refs@[picked@[y] as int], refs@[picked@[x] as int]));
            ranking.total(refs@[picked@[y] as int], refs@[picked@[y] as int]);
        }
        sorting::lemma_total_of_picked(ref_costs(refs@), picked@);
        assert(ref_costs(dirs@) =~= Seq::new(
            picked@.len(),
            |i: int| ref_costs(refs@)[picked@[i] as int],
        ));
    }
    dirs
}

/// The position of a directory that is in the list.
fn find_dir(entries: &Vec<PendingEntry>, dirs: &Vec<DirRef>, text: &[u8]) -> (r: usize)
    requires
        ascending_dirs(entries@, dirs@),
        has_ref(entries@, dirs@, text@),
    ensures
        r < dirs@.len(),
        ref_text(entries@, dirs@[r as int]) == text@,
{
    let ghost at = choose|j: int|
        0 <= j < dirs@.len() && ref_text(entries@, #[trigger] dirs@[j]) == text@;
    let mut lo: usize = 0;
    let mut hi: usize = dirs.len();
    loop
        invariant
            ascending_dirs(entries@, dirs@),
            lo <= at < hi <= dirs@.len(),
            ref_text(entries@, dirs@[at]) == text@,
        decreases hi - lo,
    {
        let mid: usize = lo + (hi - lo) / 2;
        let here = ref_slice(entries, &dirs[mid]);
        match bytes::lex_order(here, text) {
            Rank::Level => {
                return mid;
            },
            Rank::Before => {
                assert(at > mid) by {
                    if at < mid {
                        assert(!bytes::lex_le(
                            ref_text(entries@, dirs@[mid as int]),
                            ref_text(entries@, dirs@[at]),
                        ));
                    }
                }
                lo = mid + 1;
            },
            Rank::After => {
                assert(at < mid) by {
                    if mid < at {
                        assert(!bytes::lex_le(
                            ref_text(entries@, dirs@[at]),
                            ref_text(entries@, dirs@[mid as int]),
                        ));
                    }
                }
                hi = mid;
            },
        }
    }
}


/// The first of each run of pending files with one path. The files are sorted.
fn distinct_entries(entries: &Vec<PendingEntry>) -> (kept: Vec<usize>)
    requires
        forall|i: int| 0 <= i < entries@.len() ==> (#[trigger] entries@[i]).wf(),
        sorting::is_ranked(entries@, EntryRanking {  }),
    ensures
        forall|x: int| 0 <= x < kept@.len() ==> (#[trigger] kept@[x]) < entries@.len(),
        forall|x: int, y: int|
            0 <= x < y < kept@.len() ==> !types::key_le(
                entries@[#[trigger] kept@[y] as int].key(),
                entries@[#[trigger] kept@[x] as int].key(),
            ),
        forall|i: int|
            0 <= i < entries@.len() ==> has_kept(entries@, kept@, (#[trigger] entries@[i]).path@),
{
    let ranking = EntryRanking {  };
    let mut order: Vec<usize> = Vec::new();
    let mut i: usize = 0;
    while i < entries.len()
        invariant
            i <= entries@.len(),
            order@.len() == i,
            forall|x: int| 0 <= x < i ==> (#[trigger] order@[x]) == x,
        decreases entries@.len() - i,
    {
        order.push(i);
        i += 1;
    }
    assert(sorting::permuted(entries@, order@) =~= entries@);
    let kept = sorting::distinct(entries.as_slice(), &ranking, &order);
    proof {
        assert forall|x: int, y: int| 0 <= x < y < kept@.len() implies !types::key_le(
            entries@[#[trigger] kept@[y] as int].key(),
            entries@[#[trigger] kept@[x] as int].key(),
        ) by {
            assert(!ranking.le(entries@[kept@[y] as int], entries@[kept@[x] as int]));
        }
        assert forall|k: int| 0 <= k < entries@.len() implies has_kept(
            entries@,
            kept@,
            (#[trigger] entries@[k]).path@,
        ) by {
            assert(sorting::has_level(entries@, ranking, kept@, entries@[k]));
            let x = choose|x: int|
                0 <= x < kept@.len() && sorting::same_rank(
                    ranking,
                    entries@[k],
                    entries@[#[trigger] kept@[x] as int],
                );
            let a = entries@[k];
            let b = entries@[kept@[x] as int];
            types::lemma_key_antisymmetric(a.key(), b.key());
            bytes::lemma_after_last_slash(a.path@);
            bytes::lemma_after_last_slash(b.path@);
            assert(a.path@ =~= a.key().dir + a.key().name);
            assert(b.path@ =~= b.key().dir + b.key().name);
        }
    }
    kept
}

pub open spec fn has_kept(entries: Seq<PendingEntry>, kept: Seq<usize>, path: Seq<u8>) -> bool {
    exists|x: int|
        0 <= x < kept.len() && entries[#[trigger] kept[x] as int].path@ == path
}

proof fn lemma_dir_count(entries: Seq<PendingEntry>, dirs: Seq<DirRef>, n: int)
    requires
        ascending_dirs(entries, dirs),
        0 <= n <= dirs.len(),
    ensures
        n <= sorting::total(ref_costs(dirs).take(n)) + 1,
    decreases n,
{
    if n > 0 {
        lemma_dir_count(entries, dirs, n - 1);
        sorting::lemma_total_step(ref_costs(dirs), n - 1);
        if n > 1 {
            let text = ref_text(entries, dirs[n - 1]);
            assert(!bytes::lex_le(text, ref_text(entries, dirs[0])));
            assert(text.len() > 0);
            assert(is_ref(entries, dirs[n - 1]));
        } else {
            assert(ref_costs(dirs).take(0) =~= Seq::empty());
        }
    }
}

/// File `i` of the layer is one of the records.
pub open spec fn file_from(records: Seq<EntryRecord>, s: LayerSnapshot, i: int) -> bool {
    exists|e: int|
        0 <= e < records.len() && {
            let r = #[trigger] records[e];
            let file = s.files@[i];
            &&& s.file_text(i) == r.path
            &&& file.path.filename_offset == bytes::after_last_slash(r.path)
            &&& file.size == r.size
            &&& file.modified == r.modified
            &&& file.binary() == r.binary
            &&& fresh_file(file)
        }
}

/// A live file of no layer, of which git and frecency know nothing.
pub open spec fn fresh_file(file: FileItem) -> bool {
    &&& !file.deleted()
    &&& file.layer() == 0
    &&& file.access_frecency_score == 0
    &&& file.modification_frecency_score == 0
    &&& file.git_recency_score == 0
    &&& !file.git_modified
}

pub open spec fn has_file(s: LayerSnapshot, path: Seq<u8>) -> bool {
    exists|i: int| 0 <= i < s.files@.len() && #[trigger] s.file_text(i) == path
}

pub open spec fn has_dir(s: LayerSnapshot, path: Seq<u8>) -> bool {
    exists|i: int| 0 <= i < s.dirs@.len() && #[trigger] s.dir_text(i) == path
}

/// `dir` is a directory above one of the records.
pub open spec fn dir_of(records: Seq<EntryRecord>, dir: Seq<u8>) -> bool {
    exists|e: int, k: int|
        0 <= e < records.len() && bytes::is_cut((#[trigger] records[e]).path, k) && dir
            == #[trigger] records[e].path.take(k)
}

/// `s` is the layer of the records: their files sorted by `(dir, name)` with
/// one file for each path, and every directory above them, in byte order.
pub open spec fn is_layer_of(records: Seq<EntryRecord>, s: LayerSnapshot) -> bool {
    &&& s.layout == SnapshotLayout::Sorted
    &&& forall|i: int, j: int|
        0 <= i < j < s.files@.len() ==> !types::key_le(
            #[trigger] s.file_key(j),
            #[trigger] s.file_key(i),
        )
    &&& forall|i: int| 0 <= i < s.files@.len() ==> #[trigger] file_from(records, s, i)
    &&& forall|e: int|
        0 <= e < records.len() ==> has_file(s, (#[trigger] records[e]).path)
    &&& forall|i: int, j: int|
        0 <= i < j < s.dirs@.len() ==> !bytes::lex_le(
            #[trigger] s.dir_text(j),
            #[trigger] s.dir_text(i),
        )
    &&& forall|i: int| 0 <= i < s.dirs@.len() ==> dir_of(records, #[trigger] s.dir_text(i))
    &&& forall|e: int, k: int|
        0 <= e < records.len() && bytes::is_cut(records[e].path, k) ==> has_dir(
            s,
            #[trigger] records[e].path.take(k),
        )
    &&& forall|i: int|
        0 <= i < s.files@.len() ==> s.dir_text((#[trigger] s.files@[i]).parent_dir_index as int)
            == s.file_text(i).take(s.files@[i].path.filename_offset as int)
    &&& forall|i: int|
        0 <= i < s.dirs@.len() ==> (#[trigger] s.dirs@[i]).path.filename_offset
            == snapshot::last_segment(s.dir_text(i)) && !s.dirs@[i].deleted()
            && s.dirs@[i].layer() == 0 && s.dirs@[i].max_access_frecency == 0
}

/// Packs the directories into a fresh arena.
fn pack_dirs(entries: &Vec<PendingEntry>, dirs: &Vec<DirRef>) -> (r: (
    ChunkedPathStoreBuilder,
    Vec<DirItem>,
))
    requires
        forall|i: int| 0 <= i < entries@.len() ==> (#[trigger] entries@[i]).wf(),
        ascending_dirs(entries@, dirs@),
        sorting::total(ref_costs(dirs@)) <= u32::MAX,
    ensures
        r.0.wf(),
        r.0.deduplicated(),
        r.0.store.slots() <= sorting::total(ref_costs(dirs@)),
        r.1@.len() == dirs@.len(),
        forall|j: int|
            0 <= j < dirs@.len() ==> packed_dir(r.0.store, #[trigger] r.1@[j], ref_text(
                entries@,
                dirs@[j],
            )),
{
    let mut builder = ChunkedPathStoreBuilder::new(dirs.len());
    let mut items: Vec<DirItem> = Vec::new();
    let mut i: usize = 0;
    assert(ref_costs(dirs@).take(0) =~= Seq::empty());
    while i < dirs.len()
        invariant
            i <= dirs@.len(),
            forall|k: int| 0 <= k < entries@.len() ==> (#[trigger] entries@[k]).wf(),
            ascending_dirs(entries@, dirs@),
            sorting::total(ref_costs(dirs@)) <= u32::MAX,
            builder.wf(),
            builder.deduplicated(),
            builder.store.slots() <= sorting::total(ref_costs(dirs@).take(i as int)),
            items@.len() == i,
            forall|j: int|
                0 <= j < i ==> packed_dir(builder.store, #[trigger] items@[j], ref_text(
                    entries@,
                    dirs@[j],
                )),
        decreases dirs@.len() - i,
    {
        let ghost before = builder.store;
        let text = ref_slice(entries, &dirs[i]);
        proof {
            sorting::lemma_total_step(ref_costs(dirs@), i as int);
            sorting::lemma_total_prefix(ref_costs(dirs@), i + 1);
            let path = entries@[dirs@[i as int].entry as int].path@;
            assert(is_ref(entries@, dirs@[i as int]));
            bytes::lemma_cut_text(path, dirs@[i as int].end as int);
            assert(text@.len() == dirs@[i as int].end);
        }
        let handle = builder.add_bytes(text, text.len() as u16);
        let offset: u16 = last_segment_offset(text);
        let item = DirItem::new(handle, offset);
        proof {
            assert(builder.store.path(item.path) =~= builder.store.path(handle));
            bytes::lemma_cut_text(text@, offset as int);
            assert forall|j: int| 0 <= j < i implies packed_dir(
                builder.store,
                #[trigger] items@[j],
                ref_text(entries@, dirs@[j]),
            ) by {
                simd_path::lemma_paths_survive_growth(before, builder.store, items@[j].path);
            }
        }
        items.push(item);
        i += 1;
    }
    assert(ref_costs(dirs@).take(i as int) =~= ref_costs(dirs@));
    (builder, items)
}

/// `d` names `text` in the arena.
pub open spec fn packed_dir(
    store: simd_path::ChunkedPathStore,
    d: DirItem,
    text: Seq<u8>,
) -> bool {
    &&& store.names_path(d.path)
    &&& store.path(d.path) == text
    &&& d.path.filename_offset == snapshot::last_segment(text)
    &&& !d.deleted()
    &&& d.layer() == 0
    &&& d.max_access_frecency == 0
}

/// `file` names the pending file in the arena, and its directory in the list.
pub open spec fn packed_file(
    store: simd_path::ChunkedPathStore,
    entries: Seq<PendingEntry>,
    dirs: Seq<DirRef>,
    file: FileItem,
    e: PendingEntry,
) -> bool {
    &&& store.names_path(file.path)
    &&& store.path(file.path) == e.path@
    &&& file.path.filename_offset == e.filename_offset
    &&& file.size == e.size
    &&& file.modified == e.modified
    &&& file.binary() == e.binary
    &&& fresh_file(file)
    &&& file.parent_dir_index < dirs.len()
    &&& ref_text(entries, dirs[file.parent_dir_index as int]) == e.path@.take(
        e.filename_offset as int,
    )
}

/// Packs the kept files behind the directories.
fn pack_files(
    entries: &Vec<PendingEntry>,
    kept: &Vec<usize>,
    dirs: &Vec<DirRef>,
    builder: &mut ChunkedPathStoreBuilder,
) -> (files: Vec<FileItem>)
    requires
        forall|i: int| 0 <= i < entries@.len() ==> (#[trigger] entries@[i]).wf(),
        forall|x: int| 0 <= x < kept@.len() ==> (#[trigger] kept@[x]) < entries@.len(),
        ascending_dirs(entries@, dirs@),
        dirs@.len() <= u32::MAX,
        forall|x: int|
            0 <= x < kept@.len() ==> has_ref(
                entries@,
                dirs@,
                entries@[#[trigger] kept@[x] as int].path@.take(
                    entries@[kept@[x] as int].filename_offset as int,
                ),
            ),
        old(builder).wf(),
        old(builder).store.slots() + sorting::total(file_costs(entries@, kept@)) <= u32::MAX,
    ensures
        final(builder).wf(),
        final(builder).store.extends(old(builder).store),
        files@.len() == kept@.len(),
        forall|x: int|
            0 <= x < kept@.len() ==> packed_file(
                final(builder).store,
                entries@,
                dirs@,
                #[trigger] files@[x],
                entries@[kept@[x] as int],
            ),
{
    let ghost start = builder.store;
    let ghost costs = file_costs(entries@, kept@);
    let mut files: Vec<FileItem> = Vec::new();
    let mut i: usize = 0;
    proof {
        assert(costs.take(0) =~= Seq::empty());
        assert(start.chunks@.take(start.chunks@.len() as int) =~= start.chunks@);
        assert(start.indices@.take(start.indices@.len() as int) =~= start.indices@);
    }
    while i < kept.len()
        invariant
            i <= kept@.len(),
            start == old(builder).store,
            costs == file_costs(entries@, kept@),
            forall|k: int| 0 <= k < entries@.len() ==> (#[trigger] entries@[k]).wf(),
            forall|x: int| 0 <= x < kept@.len() ==> (#[trigger] kept@[x]) < entries@.len(),
            ascending_dirs(entries@, dirs@),
            dirs@.len() <= u32::MAX,
            forall|x: int|
                0 <= x < kept@.len() ==> has_ref(
                    entries@,
                    dirs@,
                    entries@[#[trigger] kept@[x] as int].path@.take(
                        entries@[kept@[x] as int].filename_offset as int,
                    ),
                ),
            builder.wf(),
            builder.store.extends(start),
            start.slots() + sorting::total(costs) <= u32::MAX,
            builder.store.slots() <= start.slots() + sorting::total(costs.take(i as int)),
            files@.len() == i,
            forall|x: int|
                0 <= x < i ==> packed_file(
                    builder.store,
                    entries@,
                    dirs@,
                    #[trigger] files@[x],
                    entries@[kept@[x] as int],
                ),
        decreases kept@.len() - i,
    {
        let ghost before = builder.store;
        let e: usize = kept[i];
        let entry = &entries[e];
        proof {
            sorting::lemma_total_step(costs, i as int);
            sorting::lemma_total_prefix(costs, i + 1);
            bytes::lemma_after_last_slash(entry.path@);
            bytes::lemma_cut_text(entry.path@, entry.filename_offset as int);
        }
        let dir = vstd::slice::slice_subrange(
            entry.path.as_slice(),
            0,
            entry.filename_offset as usize,
        );
        assert(dir@ =~= entry.path@.take(entry.filename_offset as int));
        let dir_idx: usize = find_dir(entries, dirs, dir);
        let mut file = FileItem::new_raw(
            entry.filename_offset,
            entry.size,
            entry.modified,
            false,
            entry.binary,
        );
        file.set_path(builder.add_bytes(entry.path.as_slice(), entry.filename_offset));
        file.parent_dir_index = dir_idx as u32;
        proof {
            assert forall|x: int| 0 <= x < i implies packed_file(
                builder.store,
                entries@,
                dirs@,
                #[trigger] files@[x],
                entries@[kept@[x] as int],
            ) by {
                simd_path::lemma_paths_survive_growth(before, builder.store, files@[x].path);
            }
        }
        files.push(file);
        i += 1;
    }
    assert(costs.take(i as int) =~= costs);
    files
}

impl LayerBuilder {
    /// Sorts by `(dir, name)`, drops duplicate paths, derives every ancestor
    /// dir and packs paths into a fresh arena.
    pub fn finish(self) -> (r: LayerSnapshot)
        requires
            self.wf(),
            self.table_bound() <= u32::MAX,
        ensures
            r.wf(),
            r.label == self.label,
            is_layer_of(self.records(), r),
    {
        let ghost records = self.records();
        let ghost pushed = self.entries@;
        let label = self.label;
        let mut entries = self.entries;
        assert(pushed.len() == entries.len());
        sorting::par_sort(&mut entries, &EntryRanking {  });
        let ghost order = choose|order: Seq<usize>| #[trigger]
            sorting::is_permutation(order, pushed.len()) && entries@ == sorting::permuted(
                pushed,
                order,
            );
        assert forall|i: int| 0 <= i < entries@.len() implies (#[trigger] entries@[i]).wf() by {
            assert(pushed[order[i] as int].wf());
        }
        let kept = distinct_entries(&entries);
        let refs = ancestor_dirs(&entries, &kept);
        let dirs = sorted_dirs(&entries, &refs);
        proof {
            lemma_budget(pushed, order, entries@, kept@);
            lemma_counts(entries@, kept@, refs@, dirs@);
        }
        let (mut builder, dir_items) = pack_dirs(&entries, &dirs);
        let ghost packed = builder.store;
        proof {
            assert forall|x: int| 0 <= x < kept@.len() implies has_ref(
                entries@,
                dirs@,
                entries@[#[trigger] kept@[x] as int].path@.take(
                    entries@[kept@[x] as int].filename_offset as int,
                ),
            ) by {
                let e = entries@[kept@[x] as int];
                bytes::lemma_after_last_slash(e.path@);
                lemma_kept_dir(entries@, refs@, dirs@, kept@[x] as int, e.filename_offset as int);
            }
        }
        let files = pack_files(&entries, &kept, &dirs, &mut builder);
        let store = builder.finish();
        let r = LayerSnapshot {
            label,
            store,
            files,
            dirs: dir_items,
            layout: SnapshotLayout::Sorted,
        };
        proof {
            assert forall|j: int| 0 <= j < dirs@.len() implies packed_dir(
                r.store,
                #[trigger] r.dirs@[j],
                ref_text(entries@, dirs@[j]),
            ) by {
                simd_path::lemma_paths_survive_growth(packed, r.store, r.dirs@[j].path);
            }
            lemma_is_layer(pushed, order, entries@, kept@, refs@, dirs@, r);
            assert(records =~= Seq::new(pushed.len(), |i: int| pushed[i].record()));
        }
        r
    }
}

/// The index table of the finished layer fits.
proof fn lemma_budget(
    pushed: Seq<PendingEntry>,
    order: Seq<usize>,
    entries: Seq<PendingEntry>,
    kept: Seq<usize>,
)
    requires
        sorting::is_permutation(order, pushed.len()),
        entries == sorting::permuted(pushed, order),
        forall|x: int| 0 <= x < kept.len() ==> (#[trigger] kept[x]) < entries.len(),
        forall|x: int, y: int|
            0 <= x < y < kept.len() ==> !types::key_le(
                entries[#[trigger] kept[y] as int].key(),
                entries[#[trigger] kept[x] as int].key(),
            ),
    ensures
        sorting::total(dir_budget(entries, kept)) + sorting::total(file_costs(entries, kept))
            <= sorting::total(
            Seq::new(pushed.len(), |i: int| snapshot::table_cost(pushed[i].path@)),
        ),
{
    let all = Seq::new(pushed.len(), |i: int| snapshot::table_cost(pushed[i].path@));
    let sorted = Seq::new(entries.len(), |i: int| snapshot::table_cost(entries[i].path@));
    sorting::lemma_total_permuted(all, order);
    assert(sorting::permuted(all, order) =~= sorted);
    assert forall|x: int, y: int| 0 <= x < y < kept.len() implies #[trigger] kept[x]
        != #[trigger] kept[y] by {
        assert(!types::key_le(entries[kept[y] as int].key(), entries[kept[x] as int].key()));
        types::lemma_key_total(entries[kept[y] as int].key(), entries[kept[y] as int].key());
    }
    sorting::lemma_total_of_picked(sorted, kept);
    let both = Seq::new(kept.len(), |i: int| sorted[kept[i] as int]);
    assert forall|i: int| 0 <= i < kept.len() implies both[i] == dir_budget(entries, kept)[i]
        + file_costs(entries, kept)[i] by {
        let path = entries[kept[i] as int].path@;
        let c = simd_path::chunk_cost(path.len());
        let n = bytes::slash_count(path, path.len() as int);
        assert(c * (1 + n) == c * n + c) by (nonlinear_arith);
    }
    sorting::lemma_total_sum(dir_budget(entries, kept), file_costs(entries, kept), both);
}

proof fn lemma_counts(
    entries: Seq<PendingEntry>,
    kept: Seq<usize>,
    refs: Seq<DirRef>,
    dirs: Seq<DirRef>,
)
    requires
        forall|i: int| 0 <= i < entries.len() ==> (#[trigger] entries[i]).wf(),
        forall|x: int| 0 <= x < kept.len() ==> (#[trigger] kept[x]) < entries.len(),
        ascending_dirs(entries, dirs),
        sorting::total(ref_costs(dirs)) <= sorting::total(dir_budget(entries, kept)),
        sorting::total(dir_budget(entries, kept)) + sorting::total(file_costs(entries, kept))
            <= u32::MAX,
        kept.len() == 0 ==> dirs.len() == 0,
    ensures
        dirs.len() <= u32::MAX,
        kept.len() <= u32::MAX,
{
    lemma_dir_count(entries, dirs, dirs.len() as int);
    assert(ref_costs(dirs).take(dirs.len() as int) =~= ref_costs(dirs));
    let costs = file_costs(entries, kept);
    assert forall|i: int| 0 <= i < costs.len() implies costs[i] >= 1 by {
        assert(entries[kept[i] as int].wf());
    }
    sorting::lemma_total_count(costs);
}

/// A directory of a kept file is in the sorted list.
proof fn lemma_kept_dir(
    entries: Seq<PendingEntry>,
    refs: Seq<DirRef>,
    dirs: Seq<DirRef>,
    e: int,
    k: int,
)
    requires
        has_ancestors(entries, refs, e),
        forall|j: int|
            0 <= j < refs.len() ==> has_ref(entries, dirs, ref_text(entries, #[trigger] refs[j])),
        bytes::is_cut(entries[e].path@, k),
    ensures
        has_ref(entries, dirs, entries[e].path@.take(k)),
{
    assert(has_ref(entries, refs, entries[e].path@.take(k)));
    let j = choose|j: int|
        0 <= j < refs.len() && ref_text(entries, #[trigger] refs[j]) == entries[e].path@.take(k);
    assert(has_ref(entries, dirs, ref_text(entries, refs[j])));
}

proof fn lemma_is_layer(
    pushed: Seq<PendingEntry>,
    order: Seq<usize>,
    entries: Seq<PendingEntry>,
    kept: Seq<usize>,
    refs: Seq<DirRef>,
    dirs: Seq<DirRef>,
    s: LayerSnapshot,
)
    requires
        pushed.len() <= usize::MAX,
        sorting::is_permutation(order, pushed.len()),
        entries == sorting::permuted(pushed, order),
        forall|i: int| 0 <= i < entries.len() ==> (#[trigger] entries[i]).wf(),
        forall|x: int| 0 <= x < kept.len() ==> (#[trigger] kept[x]) < entries.len(),
        forall|x: int, y: int|
            0 <= x < y < kept.len() ==> !types::key_le(
                entries[#[trigger] kept[y] as int].key(),
                entries[#[trigger] kept[x] as int].key(),
            ),
        forall|i: int|
            0 <= i < entries.len() ==> has_kept(entries, kept, (#[trigger] entries[i]).path@),
        forall|x: int|
            0 <= x < kept.len() ==> has_ancestors(entries, refs, #[trigger] kept[x] as int),
        ascending_dirs(entries, dirs),
        forall|j: int|
            0 <= j < refs.len() ==> has_ref(entries, dirs, ref_text(entries, #[trigger] refs[j])),
        s.layout == SnapshotLayout::Sorted,
        s.dirs@.len() == dirs.len(),
        s.files@.len() == kept.len(),
        forall|j: int|
            0 <= j < dirs.len() ==> packed_dir(
                s.store,
                #[trigger] s.dirs@[j],
                ref_text(entries, dirs[j]),
            ),
        forall|x: int|
            0 <= x < kept.len() ==> packed_file(
                s.store,
                entries,
                dirs,
                #[trigger] s.files@[x],
                entries[kept[x] as int],
            ),
    ensures
        is_layer_of(Seq::new(pushed.len(), |i: int| pushed[i].record()), s),
{
    let records = Seq::new(pushed.len(), |i: int| pushed[i].record());
    assert forall|i: int, j: int| 0 <= i < j < s.files@.len() implies !types::key_le(
        #[trigger] s.file_key(j),
        #[trigger] s.file_key(i),
    ) by {
        assert(packed_file(s.store, entries, dirs, s.files@[i], entries[kept[i] as int]));
        assert(packed_file(s.store, entries, dirs, s.files@[j], entries[kept[j] as int]));
        assert(!types::key_le(entries[kept[j] as int].key(), entries[kept[i] as int].key()));
    }
    assert forall|i: int| 0 <= i < s.files@.len() implies #[trigger] file_from(
        records,
        s,
        i,
    ) by {
        assert(packed_file(s.store, entries, dirs, s.files@[i], entries[kept[i] as int]));
        let e = order[kept[i] as int] as int;
        assert(entries[kept[i] as int] == pushed[e]);
        assert(entries[kept[i] as int].wf());
        assert(records[e] == pushed[e].record());
    }
    assert forall|e: int| 0 <= e < records.len() implies has_file(
        s,
        (#[trigger] records[e]).path,
    ) by {
        lemma_record_kept(pushed, order, entries, kept, e);
        let x = choose|x: int|
            0 <= x < kept.len() && entries[#[trigger] kept[x] as int].path@ == records[e].path;
        assert(packed_file(s.store, entries, dirs, s.files@[x], entries[kept[x] as int]));
        assert(s.file_text(x) == records[e].path);
    }
    assert forall|i: int, j: int| 0 <= i < j < s.dirs@.len() implies !bytes::lex_le(
        #[trigger] s.dir_text(j),
        #[trigger] s.dir_text(i),
    ) by {
        assert(packed_dir(s.store, s.dirs@[i], ref_text(entries, dirs[i])));
        assert(packed_dir(s.store, s.dirs@[j], ref_text(entries, dirs[j])));
        assert(!bytes::lex_le(ref_text(entries, dirs[j]), ref_text(entries, dirs[i])));
    }
    assert forall|i: int| 0 <= i < s.dirs@.len() implies dir_of(
        records,
        #[trigger] s.dir_text(i),
    ) by {
        assert(packed_dir(s.store, s.dirs@[i], ref_text(entries, dirs[i])));
        assert(is_ref(entries, dirs[i]));
        let e = order[dirs[i].entry as int] as int;
        assert(records[e].path == entries[dirs[i].entry as int].path@);
        assert(bytes::is_cut(records[e].path, dirs[i].end as int));
        assert(s.dir_text(i) == records[e].path.take(dirs[i].end as int));
    }
    assert forall|e: int, k: int|
        0 <= e < records.len() && bytes::is_cut(records[e].path, k) implies has_dir(
        s,
        #[trigger] records[e].path.take(k),
    ) by {
        lemma_record_kept(pushed, order, entries, kept, e);
        let x = choose|x: int|
            0 <= x < kept.len() && entries[#[trigger] kept[x] as int].path@ == records[e].path;
        lemma_kept_dir(entries, refs, dirs, kept[x] as int, k);
        let j = choose|j: int|
            0 <= j < dirs.len() && ref_text(entries, #[trigger] dirs[j]) == records[e].path.take(k);
        assert(packed_dir(s.store, s.dirs@[j], ref_text(entries, dirs[j])));
        assert(s.dir_text(j) == records[e].path.take(k));
    }
    assert forall|i: int| 0 <= i < s.files@.len() implies s.dir_text(
        (#[trigger] s.files@[i]).parent_dir_index as int,
    ) == s.file_text(i).take(s.files@[i].path.filename_offset as int) by {
        assert(packed_file(s.store, entries, dirs, s.files@[i], entries[kept[i] as int]));
        let d = s.files@[i].parent_dir_index as int;
        assert(packed_dir(s.store, s.dirs@[d], ref_text(entries, dirs[d])));
    }
    assert forall|i: int| 0 <= i < s.dirs@.len() implies (
    #[trigger] s.dirs@[i]).path.filename_offset == snapshot::last_segment(s.dir_text(i))
        && !s.dirs@[i].deleted() && s.dirs@[i].layer() == 0 && s.dirs@[i].max_access_frecency
        == 0 by {
        assert(packed_dir(s.store, s.dirs@[i], ref_text(entries, dirs[i])));
    }
}

proof fn lemma_record_kept(
    pushed: Seq<PendingEntry>,
    order: Seq<usize>,
    entries: Seq<PendingEntry>,
    kept: Seq<usize>,
    e: int,
)
    requires
        pushed.len() <= usize::MAX,
        sorting::is_permutation(order, pushed.len()),
        entries == sorting::permuted(pushed, order),
        forall|i: int|
            0 <= i < entries.len() ==> has_kept(entries, kept, (#[trigger] entries[i]).path@),
        0 <= e < pushed.len(),
    ensures
        has_kept(entries, kept, pushed[e].path@),
{
    sorting::lemma_permutation_covers(order, pushed.len(), e as usize);
    let p = choose|p: int| 0 <= p < order.len() && order[p] == e as usize;
    assert(entries[p] == pushed[e]);
}

} // verus!
