//! Sealing, sorting and compacting layers.

use crate::bytes::Rank;
use crate::file_picker::sync;
use crate::file_picker::sync::{FileModel, DirModel, FileSync};
use crate::index::layers;
use crate::index::layers::{LayerId, LayerStack};
use crate::index::path_index::{PathIndex, SlotPaths};
use crate::simd_path;
use crate::simd_path::ChunkedPathStore;
use crate::sorting;
use crate::sorting::Ranking;
use crate::types;
use crate::types::FileItem;
use vstd::prelude::*;

verus! {

/// `(dir, name)` order of the files of a table.
pub struct FileRanking<'a> {
    pub layers: &'a LayerStack,
    pub base: &'a Option<ChunkedPathStore>,
}

impl<'a> FileRanking<'a> {
    pub open spec fn key(&self, f: FileItem) -> types::PathKey {
        types::path_key(
            sync::text_in(*self.layers, *self.base, f.layer(), f.path),
            f.path.filename_offset as int,
        )
    }
}

impl<'a> Ranking<FileItem> for FileRanking<'a> {
    open spec fn admits(&self, f: FileItem) -> bool {
        sync::named(*self.layers, *self.base, f.layer(), f.path)
    }

    open spec fn le(&self, a: FileItem, b: FileItem) -> bool {
        types::key_le(self.key(a), self.key(b))
    }

    proof fn total(&self, a: FileItem, b: FileItem) {
        types::lemma_key_total(self.key(a), self.key(b));
    }

    proof fn transitive(&self, a: FileItem, b: FileItem, c: FileItem) {
        types::lemma_key_transitive(self.key(a), self.key(b), self.key(c));
    }

    fn order(&self, a: &FileItem, b: &FileItem) -> Rank {
        let ta = sync::read_path(self.layers, self.base, a.layer_id(), &a.path);
        let tb = sync::read_path(self.layers, self.base, b.layer_id(), &b.path);
        types::path_order(
            ta.as_slice(),
            a.path.filename_offset as usize,
            tb.as_slice(),
            b.path.filename_offset as usize,
        )
    }
}

/// What is indexed of one table is indexed of another with the same paths.
pub proof fn lemma_consistent<A: SlotPaths, B: SlotPaths>(index: PathIndex, a: A, b: B)
    requires
        index.consistent(a),
        forall|slot: int|
            index.start <= slot < index.indexed_upto ==> #[trigger] b.path_at(slot) == a.path_at(
                slot,
            ),
    ensures
        index.consistent(b),
{
    let map = crate::index::slot_map::slots(index.map);
    assert forall|slot: int| index.start <= slot < index.indexed_upto implies map.contains_key(
        crate::index::slot_map::hash_of(index.hasher, #[trigger] b.path_at(slot)),
    ) by {
        assert(b.path_at(slot) == a.path_at(slot));
    }
    assert forall|key: u64| #[trigger] map.contains_key(key) implies index.start <= map[key]
        < index.indexed_upto && crate::index::slot_map::hash_of(
        index.hasher,
        b.path_at(map[key] as int),
    ) == key by {
        assert(b.path_at(map[key] as int) == a.path_at(map[key] as int));
    }
}

/// No arena lost anything: each is there, and grew at most.
pub open spec fn arenas_grow(a: LayerStack, b: LayerStack) -> bool {
    &&& a.layers@.len() <= b.layers@.len()
    &&& forall|i: int|
        0 <= i < a.layers@.len() ==> match (#[trigger] a.layers@[i]).store.arena() {
            Some(before) => b.layers@[i].store.arena() matches Some(after) && after.wf()
                && after.extends(before),
            None => true,
        }
}

/// A path keeps its name while arenas grow.
pub proof fn lemma_named_grows(
    a: LayerStack,
    b: LayerStack,
    base: Option<ChunkedPathStore>,
    layer: LayerId,
    p: simd_path::ChunkedString,
)
    requires
        arenas_grow(a, b),
        sync::named(a, base, layer, p),
    ensures
        sync::named(b, base, layer, p),
        sync::text_in(b, base, layer, p) == sync::text_in(a, base, layer, p),
{
    if layer > 0 {
        let before = a.layers@[layer - 1].store.arena()->0;
        let after = b.layers@[layer - 1].store.arena()->0;
        simd_path::lemma_paths_survive_growth(before, after, p);
    }
}

/// The rows of both tables are the same, and name the same paths.
pub open spec fn rows_kept(a: FileSync, b: FileSync) -> bool {
    &&& a.wf()
    &&& b.files.items@ == a.files.items@
    &&& b.dirs.items@ == a.dirs.items@
    &&& b.chunked_paths == a.chunked_paths
    &&& arenas_grow(a.layers, b.layers)
}

pub proof fn lemma_rows_kept(a: FileSync, b: FileSync)
    requires
        rows_kept(a, b),
    ensures
        b.file_models() == a.file_models(),
        b.dir_models() == a.dir_models(),
        forall|i: int|
            0 <= i < a.files.items@.len() ==> #[trigger] b.file_slots().readable(i),
        forall|i: int| 0 <= i < a.dirs.items@.len() ==> #[trigger] b.dir_slots().readable(i),
        forall|i: int|
            0 <= i < a.files.items@.len() ==> #[trigger] b.file_slots().path_at(i)
                == a.file_slots().path_at(i),
        forall|i: int|
            0 <= i < a.dirs.items@.len() ==> #[trigger] b.dir_slots().path_at(i)
                == a.dir_slots().path_at(i),
        a.open_file_index.consistent(b.file_slots()),
        a.overlay_dir_index.consistent(b.dir_slots()),
{
    assert forall|i: int| 0 <= i < a.files.items@.len() implies #[trigger] b.file_slots().readable(
        i,
    ) && b.file_slots().path_at(i) == a.file_slots().path_at(i) by {
        assert(a.file_ok(i));
        lemma_named_grows(
            a.layers,
            b.layers,
            a.chunked_paths,
            a.files.items@[i].layer(),
            a.files.items@[i].path,
        );
    }
    assert forall|i: int| 0 <= i < a.dirs.items@.len() implies #[trigger] b.dir_slots().readable(i)
        && b.dir_slots().path_at(i) == a.dir_slots().path_at(i) by {
        assert(a.dir_ok(i));
        lemma_named_grows(
            a.layers,
            b.layers,
            a.chunked_paths,
            a.dirs.items@[i].layer(),
            a.dirs.items@[i].path,
        );
    }
    assert forall|i: int| 0 <= i < a.files.items@.len() implies #[trigger] b.file_slots().path_at(i)
        == a.file_slots().path_at(i) by {
        assert(b.file_slots().readable(i));
    }
    assert forall|i: int| 0 <= i < a.dirs.items@.len() implies #[trigger] b.dir_slots().path_at(i)
        == a.dir_slots().path_at(i) by {
        assert(b.dir_slots().readable(i));
    }
    assert(b.file_models() =~= a.file_models());
    assert(b.dir_models() =~= a.dir_models());
    lemma_consistent(a.open_file_index, a.file_slots(), b.file_slots());
    lemma_consistent(a.overlay_dir_index, a.dir_slots(), b.dir_slots());
}

/// How many of the files are live, as a sum.
pub open spec fn live_flags(files: Seq<FileModel>) -> Seq<nat> {
    Seq::new(
        files.len(),
        |i: int|
            if files[i].deleted {
                0nat
            } else {
                1nat
            },
    )
}

pub open spec fn dead_flags(files: Seq<FileModel>) -> Seq<nat> {
    Seq::new(
        files.len(),
        |i: int|
            if files[i].deleted {
                1nat
            } else {
                0nat
            },
    )
}

proof fn lemma_live_total(files: Seq<FileModel>, n: int)
    requires
        0 <= n <= files.len(),
    ensures
        sync::live_files(files, n) == sorting::total(live_flags(files).take(n)),
        sorting::total(live_flags(files).take(n)) + sorting::total(dead_flags(files).take(n)) == n,
    decreases n,
{
    if n > 0 {
        lemma_live_total(files, n - 1);
        sorting::lemma_total_step(live_flags(files), n - 1);
        sorting::lemma_total_step(dead_flags(files), n - 1);
    } else {
        assert(live_flags(files).take(0) =~= Seq::empty());
        assert(dead_flags(files).take(0) =~= Seq::empty());
    }
}

/// Reordering files does not change how many are live.
pub proof fn lemma_live_permuted(files: Seq<FileModel>, order: Seq<usize>)
    requires
        sorting::is_permutation(order, files.len()),
    ensures
        sync::live_files(sorting::permuted(files, order), files.len() as int) == sync::live_files(
            files,
            files.len() as int,
        ),
{
    let out = sorting::permuted(files, order);
    let n = files.len() as int;
    lemma_live_total(files, n);
    lemma_live_total(out, n);
    assert(live_flags(files).take(n) =~= live_flags(files));
    assert(dead_flags(files).take(n) =~= dead_flags(files));
    assert(live_flags(out).take(n) =~= live_flags(out));
    assert(dead_flags(out).take(n) =~= dead_flags(out));
    assert(live_flags(out) =~= sorting::permuted(live_flags(files), order));
    assert(dead_flags(out) =~= sorting::permuted(dead_flags(files), order));
    sorting::lemma_total_permuted(live_flags(files), order);
    sorting::lemma_total_permuted(dead_flags(files), order);
}

/// The same files are live in both.
pub proof fn lemma_live_same(a: Seq<FileModel>, b: Seq<FileModel>, n: int)
    requires
        0 <= n <= a.len(),
        n <= b.len(),
        forall|i: int| 0 <= i < n ==> (#[trigger] a[i]).deleted == (#[trigger] b[i]).deleted,
    ensures
        sync::live_files(a, n) == sync::live_files(b, n),
    decreases n,
{
    if n > 0 {
        lemma_live_same(a, b, n - 1);
        assert(a[n - 1].deleted == b[n - 1].deleted);
    }
}

pub proof fn lemma_live_dirs_same(a: Seq<DirModel>, b: Seq<DirModel>, n: int)
    requires
        0 <= n <= a.len(),
        n <= b.len(),
        forall|i: int| 0 <= i < n ==> (#[trigger] a[i]).deleted == (#[trigger] b[i]).deleted,
    ensures
        sync::live_dirs(a, n) == sync::live_dirs(b, n),
    decreases n,
{
    if n > 0 {
        lemma_live_dirs_same(a, b, n - 1);
        assert(a[n - 1].deleted == b[n - 1].deleted);
    }
}

/// `order` moves slots from `start` up to `end` among themselves, and no others.
pub open spec fn moves_within(order: Seq<usize>, start: int, end: int) -> bool {
    &&& forall|i: int| 0 <= i < order.len() && !(start <= i < end) ==> (#[trigger] order[i]) == i
    &&& forall|i: int| start <= i < end ==> start <= (#[trigger] order[i]) < end
}

/// The file table of `new` is that of `old`, read in `order`.
pub open spec fn files_rearranged(old_sync: FileSync, new_sync: FileSync, order: Seq<usize>) -> bool {
    &&& sorting::is_permutation(order, old_sync.files.items@.len())
    &&& new_sync.files.items@ == sorting::permuted(old_sync.files.items@, order)
    &&& new_sync.files.capacity == old_sync.files.capacity
    &&& new_sync.indexable_count == old_sync.indexable_count
    &&& new_sync.base_count == old_sync.base_count
    &&& new_sync.live_count == old_sync.live_count
    &&& new_sync.dirs == old_sync.dirs
    &&& new_sync.base_dirs_count == old_sync.base_dirs_count
    &&& new_sync.live_dirs_count == old_sync.live_dirs_count
    &&& new_sync.layers == old_sync.layers
    &&& new_sync.overlay_dir_index == old_sync.overlay_dir_index
    &&& new_sync.chunked_paths == old_sync.chunked_paths
}

/// Rearranging the files of one layer leaves the tables sound.
proof fn lemma_rearranged(a: FileSync, b: FileSync, order: Seq<usize>, start: int, end: int)
    requires
        a.wf(),
        0 <= start <= end <= a.files.items@.len(),
        files_rearranged(a, b, order),
        moves_within(order, start, end),
        forall|i: int, j: int|
            start <= i < end && start <= j < end ==> (#[trigger] a.files.items@[i]).layer() == (
            #[trigger] a.files.items@[j]).layer(),
        b.open_file_index.is_clear(),
        b.open_file_index.start <= a.files.items@.len(),
    ensures
        b.wf(),
        b.file_models() == sorting::permuted(a.file_models(), order),
        b.dir_models() == a.dir_models(),
{
    assert(b.file_models() =~= sorting::permuted(a.file_models(), order)) by {
        assert forall|i: int| 0 <= i < order.len() implies b.file_models()[i]
            == sorting::permuted(a.file_models(), order)[i] by {
            assert(b.files.items@[i] == a.files.items@[order[i] as int]);
        }
    }
    assert(b.dir_models() =~= a.dir_models());
    assert(b.file_starts() =~= a.file_starts());
    assert(b.dir_starts() =~= a.dir_starts());
    assert forall|i: int| 0 <= i < b.files.items@.len() implies #[trigger] b.file_ok(i) by {
        let k = order[i] as int;
        assert(b.files.items@[i] == a.files.items@[k]);
        assert(a.file_ok(k));
        assert(a.file_ok(i));
        if start <= i < end {
            assert(a.files.items@[i].layer() == a.files.items@[k].layer());
        }
    }
    assert forall|i: int| 0 <= i < b.dirs.items@.len() implies #[trigger] b.dir_ok(i) by {
        assert(a.dir_ok(i));
    }
    lemma_live_permuted(a.file_models(), order);
    lemma_consistent(a.overlay_dir_index, a.dir_slots(), b.dir_slots());
}

impl FileSync {
    /// Sorts the files of a range, all of one layer, by `(dir, name)`.
    pub fn sort_file_range(&mut self, start: usize, end: usize)
        requires
            old(self).wf(),
            start <= end <= old(self).files.items@.len(),
            forall|i: int, j: int|
                start <= i < end && start <= j < end ==> (
                #[trigger] old(self).files.items@[i]).layer() == (
                #[trigger] old(self).files.items@[j]).layer(),
        ensures
            final(self).wf(),
            exists|order: Seq<usize>| #[trigger]
                files_rearranged(*old(self), *final(self), order) && moves_within(
                    order,
                    start as int,
                    end as int,
                ) && final(self).file_models() == sorting::permuted(
                    old(self).file_models(),
                    order,
                ),
            final(self).dir_models() == old(self).dir_models(),
            sync::keys_ascend(final(self).file_models(), start as int, end as int),
    {
        let ghost before = *self;
        let ghost n = before.files.items@.len();
        self.open_file_index.reset();
        let ghost cleared = *self;
        let mut range: Vec<FileItem> = Vec::new();
        let mut i: usize = start;
        while i < end
            invariant
                start <= i <= end <= n,
                n == self.files.items@.len(),
                *self == cleared,
                range@.len() == i - start,
                forall|k: int| 0 <= k < range@.len() ==> range@[k] == self.files.items@[start + k],
            decreases end - i,
        {
            range.push(self.files.items[i]);
            i += 1;
        }
        let ranking = FileRanking { layers: &self.layers, base: &self.chunked_paths };
        assert forall|x: int| 0 <= x < range@.len() implies ranking.admits(
            #[trigger] range@[x],
        ) by {
            assert(before.file_ok(start + x));
        }
        let picks = sorting::stable_order(range.as_slice(), &ranking);
        proof {
            sorting::lemma_stable_order_ranks(range@, ranking, picks@);
        }
        let ghost order = Seq::new(
            n,
            |i: int|
                if start <= i < end {
                    (start + picks@[i - start]) as usize
                } else {
                    i as usize
                },
        );
        let mut i: usize = start;
        while i < end
            invariant
                start <= i <= end <= n,
                before.files.items@.len() == n,
                sorting::is_permutation(picks@, range@.len()),
                range@.len() == end - start,
                forall|k: int|
                    0 <= k < range@.len() ==> range@[k] == before.files.items@[start + k],
                self.files.items@.len() == n,
                self.files.capacity == before.files.capacity,
                *self == (FileSync { files: self.files, ..cleared }),
                forall|k: int|
                    0 <= k < n && !(start <= k < i) ==> self.files.items@[k]
                        == before.files.items@[k],
                forall|k: int|
                    start <= k < i ==> self.files.items@[k] == range@[picks@[k - start] as int],
            decreases end - i,
        {
            let pick: usize = picks[i - start];
            self.files.items[i] = range[pick];
            i += 1;
        }
        proof {
            assert forall|x: int| 0 <= x < order.len() implies (#[trigger] order[x]) < n by {
                if start <= x < end {
                    assert(picks@[x - start] < range@.len());
                }
            }
            assert forall|x: int, y: int| 0 <= x < y < order.len() implies #[trigger] order[x]
                != #[trigger] order[y] by {
                if start <= x < end {
                    assert(picks@[x - start] < range@.len());
                }
                if start <= y < end {
                    assert(picks@[y - start] < range@.len());
                }
                if start <= x < end && start <= y < end {
                    assert(picks@[x - start] != picks@[y - start]);
                }
            }
            assert(self.files.items@ =~= sorting::permuted(before.files.items@, order));
            assert(files_rearranged(before, *self, order));
            assert(moves_within(order, start as int, end as int)) by {
                assert forall|i: int| start <= i < end implies start <= (#[trigger] order[i])
                    < end by {
                    assert(picks@[i - start] < range@.len());
                }
            }
            lemma_rearranged(before, *self, order, start as int, end as int);
            let files = self.file_models();
            let sorted = sorting::permuted(range@, picks@);
            assert forall|i: int, j: int| start <= i < j < end implies types::key_le(
                (#[trigger] files[i]).key(),
                (#[trigger] files[j]).key(),
            ) by {
                assert(sorted[i - start] == self.files.items@[i]);
                assert(sorted[j - start] == self.files.items@[j]);
                assert(ranking.le(sorted[i - start], sorted[j - start]));
            }
        }
    }
}


/// Where layers start in order, layer `l` owns the slots from its start up to
/// the next start, or to the end of the table.
pub proof fn lemma_span(sync: FileSync, l: int)
    requires
        sync.wf(),
        0 <= l < sync.layers.layers@.len(),
    ensures
        sync.layers.file_span(l, sync.files.items@.len() as int).0 == sync.file_starts()[l],
        l + 1 < sync.file_starts().len() ==> sync.layers.file_span(
            l,
            sync.files.items@.len() as int,
        ).1 == sync.file_starts()[l + 1],
        l + 1 == sync.file_starts().len() ==> sync.layers.file_span(
            l,
            sync.files.items@.len() as int,
        ).1 == sync.files.items@.len(),
        sync.base_count <= sync.file_starts()[l] <= sync.files.items@.len(),
{
    let starts = sync.file_starts();
    assert(starts[0] <= starts[l] <= sync.files.items@.len());
    if l + 1 < starts.len() {
        assert(starts[l] <= starts[l + 1] <= sync.files.items@.len());
    }
}

/// The slots of a layer's range are the files of that layer.
pub proof fn lemma_span_layer(sync: FileSync, l: int, i: int)
    requires
        sync.wf(),
        0 <= l < sync.layers.layers@.len(),
        0 <= i < sync.files.items@.len(),
    ensures
        sync::in_span(sync, l, i, sync.files.items@.len() as int) <==> sync.files.items@[i].layer()
            == l + 1,
{
    let starts = sync.file_starts();
    lemma_span(sync, l);
    assert(sync.file_ok(i));
    let k = sync.files.items@[i].layer() as int;
    if k == 0 {
        assert(starts[0] <= starts[l]);
    } else {
        if k - 1 < l {
            assert(starts[k] <= starts[l]);
        } else if k - 1 > l {
            assert(starts[l + 1] <= starts[k - 1]);
        }
    }
}

pub proof fn lemma_keys_unmoved(
    files: Seq<FileModel>,
    order: Seq<usize>,
    start: int,
    end: int,
    s: int,
    e: int,
)
    requires
        moves_within(order, start, end),
        order.len() == files.len(),
        0 <= s <= e <= files.len(),
        e <= start || end <= s,
        sync::keys_ascend(files, s, e),
    ensures
        sync::keys_ascend(sorting::permuted(files, order), s, e),
{
    let out = sorting::permuted(files, order);
    assert forall|i: int, j: int| s <= i < j < e implies types::key_le(
        (#[trigger] out[i]).key(),
        (#[trigger] out[j]).key(),
    ) by {
        assert(out[i] == files[i]);
        assert(out[j] == files[j]);
    }
}

/// Rearranging overlay files keeps a table ordered, where what is said to be
/// sorted still is.
pub proof fn lemma_ordered_rearranged(
    a: FileSync,
    b: FileSync,
    order: Seq<usize>,
    start: int,
    end: int,
)
    requires
        a.wf(),
        a.ordered(),
        b.wf(),
        a.base_count <= start <= end <= a.files.items@.len(),
        sorting::is_permutation(order, a.files.items@.len()),
        moves_within(order, start, end),
        b.file_models() == sorting::permuted(a.file_models(), order),
        b.dir_models() == a.dir_models(),
        b.indexable_count == a.indexable_count,
        b.base_count == a.base_count,
        b.base_dirs_count == a.base_dirs_count,
        forall|l: int|
            0 <= l < b.layers.layers@.len() && (#[trigger] b.layers.layers@[l]).sorted
                ==> sync::keys_ascend(
                b.file_models(),
                b.layers.file_span(l, b.files.items@.len() as int).0,
                b.layers.file_span(l, b.files.items@.len() as int).1,
            ),
    ensures
        b.ordered(),
{
    let fa = a.file_models();
    let fb = b.file_models();
    assert forall|i: int, j: int| 0 <= i < j < fb.len() implies (#[trigger] fb[i]).path != (
    #[trigger] fb[j]).path by {
        assert(order[i] != order[j]);
        assert(fb[i] == fa[order[i] as int]);
        assert(fb[j] == fa[order[j] as int]);
        if order[i] < order[j] {
            assert(fa[order[i] as int].path != fa[order[j] as int].path);
        } else {
            assert(fa[order[j] as int].path != fa[order[i] as int].path);
        }
    }
    assert forall|i: int| 0 <= i < fb.len() implies sync::tidy_file(
        #[trigger] fb[i],
        b.dir_models(),
    ) by {
        assert(sync::tidy_file(fa[order[i] as int], a.dir_models()));
    }
    lemma_keys_unmoved(fa, order, start, end, 0, a.indexable_count as int);
    lemma_keys_unmoved(fa, order, start, end, a.indexable_count as int, a.base_count as int);
}

/// The identity order.
pub open spec fn unmoved(n: nat) -> Seq<usize> {
    Seq::new(n, |i: int| i as usize)
}

/// The tables of `new` are those of `old` with some overlay files, none of them
/// before slot `from`, in another order.
pub open spec fn same_rows(old_sync: FileSync, new_sync: FileSync, from: int) -> bool {
    &&& exists|order: Seq<usize>| #[trigger]
        sorting::is_permutation(order, old_sync.files.items@.len()) && moves_within(
            order,
            from,
            old_sync.files.items@.len() as int,
        ) && new_sync.file_models() == sorting::permuted(old_sync.file_models(), order)
    &&& new_sync.dir_models() == old_sync.dir_models()
    &&& same_counts(old_sync, new_sync)
}

pub open spec fn same_counts(old_sync: FileSync, new_sync: FileSync) -> bool {
    &&& new_sync.files.capacity == old_sync.files.capacity
    &&& new_sync.dirs.capacity == old_sync.dirs.capacity
    &&& new_sync.indexable_count == old_sync.indexable_count
    &&& new_sync.base_count == old_sync.base_count
    &&& new_sync.live_count == old_sync.live_count
    &&& new_sync.base_dirs_count == old_sync.base_dirs_count
    &&& new_sync.live_dirs_count == old_sync.live_dirs_count
    &&& new_sync.chunked_paths == old_sync.chunked_paths
}

/// The base scan and the room in the tables are the same.
pub open spec fn same_base(old_sync: FileSync, new_sync: FileSync) -> bool {
    &&& new_sync.files.capacity == old_sync.files.capacity
    &&& new_sync.dirs.capacity == old_sync.dirs.capacity
    &&& new_sync.indexable_count == old_sync.indexable_count
    &&& new_sync.base_count == old_sync.base_count
    &&& new_sync.base_dirs_count == old_sync.base_dirs_count
    &&& new_sync.chunked_paths == old_sync.chunked_paths
}

/// What sealing does to the layers: the top one is frozen and said to be
/// sorted, its label, start and arena stay.
pub open spec fn top_sealed(a: LayerStack, b: LayerStack) -> bool {
    let n = a.layers@.len();
    &&& b.layers@.len() == n
    &&& b.layers@.take(n - 1) == a.layers@.take(n - 1)
    &&& b.layers@[n - 1].label == a.layers@[n - 1].label
    &&& b.layers@[n - 1].files_start == a.layers@[n - 1].files_start
    &&& b.layers@[n - 1].dirs_start == a.layers@[n - 1].dirs_start
    &&& b.layers@[n - 1].sorted
    &&& b.layers@[n - 1].store is Sealed
    &&& match a.layers@[n - 1].store.arena() {
        Some(arena) => b.layers@[n - 1].store.arena() == Some(arena),
        None => true,
    }
}

impl FileSync {
    /// Freezes the top layer, sorted by `(dir, name)`: that turns every later
    /// lookup in it into a binary search.
    pub fn seal_top_sorted(&mut self)
        requires
            old(self).wf(),
        ensures
            final(self).wf(),
            top_sealed(old(self).layers, final(self).layers),
            same_rows(*old(self), *final(self), old(self).file_starts().last() as int),
            old(self).ordered() ==> final(self).ordered(),
    {
        let ghost before = *self;
        let ghost n = self.layers.layers@.len() as int;
        let ghost len = self.files.items@.len();
        let top: LayerId = self.layers.top_id();
        let ghost mut order = unmoved(len);
        proof {
            lemma_span(*self, n - 1);
            assert(sorting::permuted(self.file_models(), order) =~= self.file_models());
            assert(sorting::permuted(self.files.items@, order) =~= self.files.items@);
        }
        if !self.layers.is_sorted(top) {
            let (start, end) = match self.layers.file_range(top, self.files.len()) {
                Some(range) => range,
                None => (0, 0),
            };
            proof {
                assert forall|i: int, j: int|
                    start <= i < end && start <= j < end implies (
                #[trigger] self.files.items@[i]).layer() == (
                #[trigger] self.files.items@[j]).layer() by {
                    lemma_span_layer(*self, n - 1, i);
                    lemma_span_layer(*self, n - 1, j);
                }
            }
            self.sort_file_range(start, end);
            proof {
                order = choose|order: Seq<usize>| #[trigger]
                    files_rearranged(before, *self, order) && moves_within(
                        order,
                        start as int,
                        end as int,
                    ) && self.file_models() == sorting::permuted(before.file_models(), order);
            }
        }
        let ghost sorted = *self;
        let ghost start = before.file_starts().last() as int;
        assert(sorted.layers == before.layers);
        assert(sorted.file_starts() =~= before.file_starts());
        self.layers.seal_top();
        self.layers.set_sorted(top, true);
        proof {
            let layers = self.layers.layers@;
            assert(layers.take(n - 1) =~= before.layers.layers@.take(n - 1)) by {
                assert forall|i: int| 0 <= i < n - 1 implies layers[i]
                    == before.layers.layers@[i] by {
                    assert(before.layers.layers@.drop_last()[i] == before.layers.layers@[i]);
                }
            }
            assert forall|i: int| 0 <= i < n - 1 implies #[trigger] layers[i]
                == before.layers.layers@[i] by {
                assert(layers.take(n - 1)[i] == layers[i]);
                assert(before.layers.layers@.take(n - 1)[i] == before.layers.layers@[i]);
            }
            assert(arenas_grow(sorted.layers, self.layers)) by {
                assert forall|i: int|
                    0 <= i < n implies match (#[trigger] sorted.layers.layers@[i]).store.arena() {
                    Some(x) => self.layers.layers@[i].store.arena() matches Some(y) && y.wf()
                        && y.extends(x),
                    None => true,
                } by {
                    assert(sorted.layers.layers@[i].store.wf());
                    match sorted.layers.layers@[i].store.arena() {
                        Some(x) => {
                            assert(x.chunks@.take(x.chunks@.len() as int) =~= x.chunks@);
                            assert(x.indices@.take(x.indices@.len() as int) =~= x.indices@);
                        },
                        None => {},
                    }
                }
            }
            lemma_rows_kept(sorted, *self);
            assert(self.file_starts() =~= before.file_starts());
            assert(self.dir_starts() =~= before.dir_starts());
            assert forall|i: int| 0 <= i < self.files.items@.len() implies #[trigger] self.file_ok(
                i,
            ) by {
                assert(sorted.file_ok(i));
                assert(self.file_slots().readable(i));
            }
            assert forall|i: int| 0 <= i < self.dirs.items@.len() implies #[trigger] self.dir_ok(
                i,
            ) by {
                assert(sorted.dir_ok(i));
                assert(self.dir_slots().readable(i));
            }
            assert(self.wf());
            assert(self.file_models() == sorting::permuted(before.file_models(), order));
            assert(same_counts(before, *self));
            assert(sorting::is_permutation(order, before.files.items@.len()) && moves_within(
                order,
                start,
                before.files.items@.len() as int,
            ));
            if before.ordered() {
                assert forall|l: int|
                    0 <= l < n && (#[trigger] self.layers.layers@[l]).sorted implies sync::keys_ascend(
                    self.file_models(),
                    self.layers.file_span(l, len as int).0,
                    self.layers.file_span(l, len as int).1,
                ) by {
                    lemma_span(*self, l);
                    lemma_span(before, l);
                    if l < n - 1 {
                        assert(before.layers.layers@[l].sorted);
                        assert(before.file_starts()[l + 1] <= before.file_starts()[n - 1]);
                        lemma_keys_unmoved(
                            before.file_models(),
                            order,
                            start,
                            len as int,
                            before.file_starts()[l] as int,
                            before.file_starts()[l + 1] as int,
                        );
                    } else if before.layers.layers@[n - 1].sorted {
                        assert(self.file_models() == before.file_models());
                    }
                }
                lemma_ordered_rearranged(before, *self, order, start, len as int);
            }
        }
    }
}

} // verus!
