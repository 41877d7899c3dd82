//! Rebuilding the base scan from a snapshot.

use crate::bytes;
use crate::bytes::Rank;
use crate::file_picker::sync;
use crate::file_picker::sync::{DirModel, FileModel, FileSync};
use crate::index::codec::{LayerSnapshot, SnapshotLayout};
use crate::index::layers;
use crate::index::layers::{LayerStack, LayerStore, MAX_OVERFLOW_FILES};
use crate::index::path_index::{PathIndex, SlotPaths};
use crate::simd_path::ChunkedPathStore;
use crate::sorting;
use crate::sorting::Ranking;
use crate::stable_vec::StableVec;
use crate::types;
use crate::types::{DirItem, FileItem};
use vstd::prelude::*;

verus! {

/// The content of these files can be indexed.
pub open spec fn indexable(f: FileModel) -> bool {
    !f.binary
}

/// Whether the content of a file can be indexed: it is not binary.
pub fn is_indexable(file: &FileItem) -> (r: bool)
    ensures
        r == !file.binary(),
{
    !file.is_binary()
}

/// Indexable files come first, each partition in `(dir, name)` order.
pub open spec fn base_partitioned(files: Seq<FileModel>) -> bool {
    forall|i: int, j: int|
        0 <= i < j < files.len() ==> base_le(#[trigger] files[i], #[trigger] files[j])
}

pub open spec fn base_le(a: FileModel, b: FileModel) -> bool {
    if indexable(a) == indexable(b) {
        types::key_le(a.key(), b.key())
    } else {
        indexable(a)
    }
}

/// Indexable files first.
pub struct PartitionRanking {}

impl Ranking<FileItem> for PartitionRanking {
    open spec fn admits(&self, f: FileItem) -> bool {
        true
    }

    open spec fn le(&self, a: FileItem, b: FileItem) -> bool {
        !a.binary() || b.binary()
    }

    proof fn total(&self, a: FileItem, b: FileItem) {
    }

    proof fn transitive(&self, a: FileItem, b: FileItem, c: FileItem) {
    }

    fn order(&self, a: &FileItem, b: &FileItem) -> Rank {
        let first = is_indexable(a);
        let second = is_indexable(b);
        if first == second {
            Rank::Level
        } else if first {
            Rank::Before
        } else {
            Rank::After
        }
    }
}

/// Order of the base scan.
pub struct BaseRanking<'a> {
    pub store: &'a ChunkedPathStore,
}

impl<'a> BaseRanking<'a> {
    pub open spec fn model(&self, f: FileItem) -> FileModel {
        sync::file_model(f, self.store.path(f.path))
    }
}

impl<'a> Ranking<FileItem> for BaseRanking<'a> {
    open spec fn admits(&self, f: FileItem) -> bool {
        self.store.wf() && self.store.names_path(f.path)
    }

    open spec fn le(&self, a: FileItem, b: FileItem) -> bool {
        base_le(self.model(a), self.model(b))
    }

    proof fn total(&self, a: FileItem, b: FileItem) {
        types::lemma_key_total(self.model(a).key(), self.model(b).key());
    }

    proof fn transitive(&self, a: FileItem, b: FileItem, c: FileItem) {
        let ma = self.model(a);
        let mb = self.model(b);
        let mc = self.model(c);
        if indexable(ma) == indexable(mb) && indexable(mb) == indexable(mc) {
            types::lemma_key_transitive(ma.key(), mb.key(), mc.key());
        }
    }

    fn order(&self, a: &FileItem, b: &FileItem) -> Rank {
        let first = is_indexable(a);
        let second = is_indexable(b);
        if first != second {
            return if first {
                Rank::Before
            } else {
                Rank::After
            };
        }
        let ta = a.path.read(self.store);
        let tb = b.path.read(self.store);
        types::path_order(
            ta.as_slice(),
            a.path.filename_offset as usize,
            tb.as_slice(),
            b.path.filename_offset as usize,
        )
    }
}

/// The first `p` files are indexable, and no others.
pub open spec fn split_at(files: Seq<FileItem>, p: int) -> bool {
    &&& 0 <= p <= files.len()
    &&& forall|i: int| 0 <= i < files.len() ==> (!(#[trigger] files[i]).binary() <==> i < p)
}

/// How many files come first because they are indexable.
fn partition_point(files: &Vec<FileItem>) -> (r: usize)
    ensures
        r <= files@.len(),
        forall|p: int| #[trigger] split_at(files@, p) ==> r == p,
{
    let mut lo: usize = 0;
    let mut hi: usize = files.len();
    while lo < hi
        invariant
            lo <= hi <= files@.len(),
            forall|p: int| #[trigger] split_at(files@, p) ==> lo <= p <= hi,
        decreases hi - lo,
    {
        let mid: usize = lo + (hi - lo) / 2;
        if is_indexable(&files[mid]) {
            assert forall|p: int| #[trigger] split_at(files@, p) implies mid + 1 <= p <= hi by {
                assert(!files@[mid as int].binary());
            }
            lo = mid + 1;
        } else {
            assert forall|p: int| #[trigger] split_at(files@, p) implies lo <= p <= mid by {
                assert(files@[mid as int].binary());
            }
            hi = mid;
        }
    }
    lo
}

/// The order in which the files of a snapshot become those of the base scan.
pub open spec fn base_order(s: LayerSnapshot, files: Seq<FileModel>) -> bool {
    let before = s.file_models();
    match s.layout {
        SnapshotLayout::BasePartitioned => files == before,
        // Stable: keeps `(dir, name)` order inside each partition.
        SnapshotLayout::Sorted => exists|order: Seq<usize>| #[trigger]
            sorting::is_stable_order(s.files@, PartitionRanking {  }, order) && files
                == sorting::permuted(before, order),
        SnapshotLayout::Unsorted => base_partitioned(files) && exists|order: Seq<usize>| #[trigger]
            sorting::is_permutation(order, before.len()) && files == sorting::permuted(
                before,
                order,
            ),
    }
}

/// A snapshot that can be the base scan: ordered, and partitioned where its
/// layout says so.
pub open spec fn ordered_base(s: LayerSnapshot) -> bool {
    &&& s.ordered()
    &&& s.layout == SnapshotLayout::BasePartitioned ==> base_partitioned(s.file_models())
}

/// Files in the order of the base scan.
fn order_base(files: Vec<FileItem>, layout: SnapshotLayout, store: &ChunkedPathStore) -> (out: Vec<
    FileItem,
>)
    requires
        store.wf(),
        forall|i: int| 0 <= i < files@.len() ==> store.names_path((#[trigger] files@[i]).path),
    ensures
        out@.len() == files@.len(),
        match layout {
            SnapshotLayout::BasePartitioned => out@ == files@,
            SnapshotLayout::Sorted => exists|order: Seq<usize>| #[trigger]
                sorting::is_stable_order(files@, PartitionRanking {  }, order) && out@
                    == sorting::permuted(files@, order),
            SnapshotLayout::Unsorted => sorting::is_ranked(out@, BaseRanking { store })
                && exists|order: Seq<usize>| #[trigger]
                sorting::is_permutation(order, files@.len()) && out@ == sorting::permuted(
                    files@,
                    order,
                ),
        },
{
    match layout {
        SnapshotLayout::BasePartitioned => files,
        SnapshotLayout::Sorted => {
            let order = sorting::stable_order(files.as_slice(), &PartitionRanking {  });
            sorting::permute(files.as_slice(), &order)
        },
        SnapshotLayout::Unsorted => {
            let ranking = BaseRanking { store };
            let mut out = files;
            sorting::par_sort(&mut out, &ranking);
            out
        },
    }
}

/// What frecency knows of a file.
#[derive(Clone, Copy)]
pub struct FrecencyScores {
    pub access: i16,
    pub modification: i16,
}

/// What is known of the files, if anything is.
pub open spec fn scores_of(frecency: Option<&Vec<Option<FrecencyScores>>>) -> Option<
    Seq<Option<FrecencyScores>>,
> {
    match frecency {
        Some(scores) => Some(scores@),
        None => None,
    }
}

/// The file with the scores that were found for it, if any were.
pub open spec fn with_scores(file: FileItem, scores: Option<FrecencyScores>) -> FileItem {
    match scores {
        Some(found) => FileItem {
            access_frecency_score: found.access,
            modification_frecency_score: found.modification,
            ..file
        },
        None => file,
    }
}

/// The highest access score of the files directly in directory `d`, none
/// below 0.
pub open spec fn top_access(files: Seq<FileItem>, d: int, n: int) -> int
    decreases n,
{
    if n <= 0 {
        0
    } else {
        let rest = top_access(files, d, n - 1);
        if files[n - 1].parent_dir_index == d && files[n - 1].access_frecency_score > rest {
            files[n - 1].access_frecency_score as int
        } else {
            rest
        }
    }
}

/// `s` is `given` with the scores of its files and directories set anew.
pub open spec fn is_scored(
    given: LayerSnapshot,
    frecency: Option<Seq<Option<FrecencyScores>>>,
    s: LayerSnapshot,
) -> bool {
    &&& s == (LayerSnapshot { files: s.files, dirs: s.dirs, ..given })
    &&& s.files@.len() == given.files@.len()
    &&& forall|i: int|
        0 <= i < s.files@.len() ==> #[trigger] s.files@[i] == match frecency {
            Some(scores) => with_scores(given.files@[i], scores[i]),
            None => given.files@[i],
        }
    &&& s.dirs@.len() == given.dirs@.len()
    &&& forall|d: int|
        0 <= d < s.dirs@.len() ==> (#[trigger] s.dirs@[d]) == (DirItem {
            max_access_frecency: s.dirs@[d].max_access_frecency,
            ..given.dirs@[d]
        }) && s.dirs@[d].max_access_frecency == match frecency {
            Some(_) => top_access(s.files@, d, s.files@.len() as int),
            None => 0int,
        }
}

/// Directories of which frecency knows nothing yet.
fn reset_dirs(dirs: &Vec<DirItem>) -> (out: Vec<DirItem>)
    ensures
        out@.len() == dirs@.len(),
        forall|i: int|
            0 <= i < dirs@.len() ==> #[trigger] out@[i] == (DirItem {
                max_access_frecency: 0,
                ..dirs@[i]
            }),
{
    let mut out: Vec<DirItem> = Vec::new();
    let mut i: usize = 0;
    while i < dirs.len()
        invariant
            i <= dirs@.len(),
            out@.len() == i,
            forall|k: int|
                0 <= k < i ==> #[trigger] out@[k] == (DirItem {
                    max_access_frecency: 0,
                    ..dirs@[k]
                }),
        decreases dirs@.len() - i,
    {
        let mut dir: DirItem = dirs[i];
        dir.max_access_frecency = 0;
        out.push(dir);
        i += 1;
    }
    out
}

proof fn lemma_top_access_prefix(a: Seq<FileItem>, b: Seq<FileItem>, d: int, n: int)
    requires
        0 <= n <= a.len(),
        n <= b.len(),
        forall|i: int| 0 <= i < n ==> a[i] == b[i],
    ensures
        top_access(a, d, n) == top_access(b, d, n),
        0 <= top_access(a, d, n) <= i16::MAX,
    decreases n,
{
    if n > 0 {
        lemma_top_access_prefix(a, b, d, n - 1);
    }
}

/// Sets the scores of the files, and of their directories by them.
fn score_snapshot(
    snapshot: LayerSnapshot,
    frecency: Option<&Vec<Option<FrecencyScores>>>,
) -> (out: LayerSnapshot)
    requires
        snapshot.wf(),
        frecency matches Some(scores) ==> scores@.len() == snapshot.files@.len(),
    ensures
        is_scored(
            snapshot,
            scores_of(frecency),
            out,
        ),
{
    let LayerSnapshot { label, store, files, dirs, layout } = snapshot;
    let dirs = reset_dirs(&dirs);
    match frecency {
        None => LayerSnapshot { label, store, files, dirs, layout },
        Some(scores) => {
            let (files, dirs) = score_rows(files, dirs, scores);
            LayerSnapshot { label, store, files, dirs, layout }
        },
    }
}

fn score_rows(
    files: Vec<FileItem>,
    dirs: Vec<DirItem>,
    scores: &Vec<Option<FrecencyScores>>,
) -> (r: (Vec<FileItem>, Vec<DirItem>))
    requires
        scores@.len() == files@.len(),
        forall|d: int| 0 <= d < dirs@.len() ==> (#[trigger] dirs@[d]).max_access_frecency == 0,
    ensures
        r.0@.len() == files@.len(),
        forall|i: int|
            0 <= i < files@.len() ==> #[trigger] r.0@[i] == with_scores(files@[i], scores@[i]),
        r.1@.len() == dirs@.len(),
        forall|d: int|
            0 <= d < dirs@.len() ==> (#[trigger] r.1@[d]) == (DirItem {
                max_access_frecency: r.1@[d].max_access_frecency,
                ..dirs@[d]
            }) && r.1@[d].max_access_frecency == top_access(r.0@, d, r.0@.len() as int),
{
    let ghost given = dirs@;
    let mut dirs = dirs;
    let mut out: Vec<FileItem> = Vec::new();
    let mut i: usize = 0;
    while i < files.len()
        invariant
            scores@.len() == files@.len(),
            i <= files@.len(),
            out@.len() == i,
            forall|k: int| 0 <= k < i ==> #[trigger] out@[k] == with_scores(files@[k], scores@[k]),
            dirs@.len() == given.len(),
            forall|d: int|
                0 <= d < given.len() ==> (#[trigger] dirs@[d]) == (DirItem {
                    max_access_frecency: dirs@[d].max_access_frecency,
                    ..given[d]
                }) && dirs@[d].max_access_frecency == top_access(out@, d, i as int),
        decreases files@.len() - i,
    {
        let ghost before = out@;
        let mut file: FileItem = files[i];
        if let Some(found) = scores[i] {
            file.access_frecency_score = found.access;
            file.modification_frecency_score = found.modification;
        }
        let score: i32 = file.access_frecency_score as i32;
        let parent: usize = file.parent_dir_index as usize;
        out.push(file);
        proof {
            assert forall|d: int| 0 <= d < given.len() implies top_access(out@, d, i + 1) == (
            if file.parent_dir_index == d && score > #[trigger] dirs@[d].max_access_frecency {
                score as int
            } else {
                dirs@[d].max_access_frecency as int
            }) by {
                lemma_top_access_prefix(before, out@, d, i as int);
            }
        }
        if score > 0 && parent < dirs.len() {
            let mut dir: DirItem = dirs[parent];
            if score > dir.max_access_frecency {
                dir.max_access_frecency = score;
                dirs.set(parent, dir);
            }
        }
        proof {
            assert forall|d: int| 0 <= d < given.len() implies (#[trigger] dirs@[d]) == (DirItem {
                max_access_frecency: dirs@[d].max_access_frecency,
                ..given[d]
            }) && dirs@[d].max_access_frecency == top_access(out@, d, i + 1) by {
                lemma_top_access_prefix(before, out@, d, i as int);
            }
        }
        i += 1;
    }
    (out, dirs)
}

/// The scores decide nothing of where a row is.
proof fn lemma_scored(
    given: LayerSnapshot,
    frecency: Option<Seq<Option<FrecencyScores>>>,
    s: LayerSnapshot,
)
    requires
        given.wf(),
        is_scored(given, frecency, s),
    ensures
        s.wf(),
        forall|i: int|
            0 <= i < s.file_models().len() ==> (#[trigger] s.file_models()[i]).path
                == given.file_models()[i].path && s.file_models()[i].binary
                == given.file_models()[i].binary,
        ordered_base(given) ==> ordered_base(s),
        base_partitioned(given.file_models()) ==> base_partitioned(s.file_models()),
{
    let f = given.file_models();
    let g = s.file_models();
    assert forall|i: int| 0 <= i < g.len() implies (#[trigger] g[i]) == (FileModel {
        access_frecency: g[i].access_frecency,
        modification_frecency: g[i].modification_frecency,
        ..f[i]
    }) by {
        assert(s.files@[i].path == given.files@[i].path);
    }
    assert forall|i: int| 0 <= i < s.files@.len() implies s.store.names_path(
        (#[trigger] s.files@[i]).path,
    ) && s.files@[i].parent_dir_index < s.dirs@.len() && !s.files@[i].deleted()
        && s.files@[i].layer() == 0 by {
        assert(given.store.names_path(given.files@[i].path));
    }
    assert forall|d: int| 0 <= d < s.dirs@.len() implies s.store.names_path(
        (#[trigger] s.dirs@[d]).path,
    ) && !s.dirs@[d].deleted() && s.dirs@[d].layer() == 0 by {
        assert(given.store.names_path(given.dirs@[d].path));
    }
    assert forall|d: int| 0 <= d < s.dir_models().len() implies (#[trigger] s.dir_models()[d]) == (
    DirModel { frecency: s.dir_models()[d].frecency, ..given.dir_models()[d] }) by {
        assert(s.dirs@[d].path == given.dirs@[d].path);
    }
    if ordered_base(given) {
        assert(s.ordered()) by {
            assert forall|i: int| 0 <= i < g.len() implies sync::tidy_file(
                #[trigger] g[i],
                s.dir_models(),
            ) by {
                assert(sync::tidy_file(f[i], given.dir_models()));
            }
        }
    }
}

impl FileSync {
    /// An index whose base scan is the snapshot. `frecency` holds what is known
    /// of each of its files.
    pub fn from_snapshot(
        snapshot: LayerSnapshot,
        frecency: Option<&Vec<Option<FrecencyScores>>>,
    ) -> (r: Self)
        requires
            snapshot.wf(),
            frecency matches Some(scores) ==> scores@.len() == snapshot.files@.len(),
            snapshot.files@.len() + MAX_OVERFLOW_FILES <= usize::MAX,
            snapshot.dirs@.len() + MAX_OVERFLOW_FILES <= usize::MAX,
        ensures
            r.wf(),
            is_restored(
                snapshot,
                scores_of(frecency),
                r,
            ),
            ordered_base(snapshot) ==> r.ordered(),
            snapshot.layout != SnapshotLayout::BasePartitioned || base_partitioned(
                snapshot.file_models(),
            ) ==> r.partitioned(),
    {
        let ghost given = snapshot;
        let ghost scores = scores_of(frecency);
        let scored = score_snapshot(snapshot, frecency);
        let ghost s = scored;
        proof {
            lemma_scored(given, scores, s);
        }
        let r = FileSync::restore(scored);
        proof {
            assert(is_restored(given, scores, r));
        }
        r
    }

    /// The indexable files come first.
    pub open spec fn partitioned(&self) -> bool {
        forall|i: int|
            0 <= i < self.base_count ==> (indexable(#[trigger] self.file_models()[i]) <==> i
                < self.indexable_count)
    }

    fn restore(snapshot: LayerSnapshot) -> (r: Self)
        requires
            snapshot.wf(),
            snapshot.files@.len() + MAX_OVERFLOW_FILES <= usize::MAX,
            snapshot.dirs@.len() + MAX_OVERFLOW_FILES <= usize::MAX,
        ensures
            r.wf(),
            has_rows(snapshot, r),
            snapshot.layout != SnapshotLayout::BasePartitioned || base_partitioned(
                snapshot.file_models(),
            ) ==> r.partitioned(),
            ordered_base(snapshot) ==> r.ordered(),
    {
        let ghost s = snapshot;
        let LayerSnapshot { label: _, store, files, dirs, layout } = snapshot;
        let files = order_base(files, layout, &store);
        let indexable_count: usize = partition_point(&files);
        let base_count: usize = files.len();
        let base_dirs_count: usize = dirs.len();
        let r = FileSync {
            files: StableVec::from_vec_with_reserve(files, MAX_OVERFLOW_FILES),
            indexable_count,
            base_count,
            live_count: base_count,
            dirs: StableVec::from_vec_with_reserve(dirs, MAX_OVERFLOW_FILES),
            base_dirs_count,
            live_dirs_count: base_dirs_count,
            layers: LayerStack::new(base_count, base_dirs_count),
            open_file_index: PathIndex::new(),
            overlay_dir_index: PathIndex::new(),
            chunked_paths: Some(store),
        };
        proof {
            lemma_restored(s, r);
        }
        r
    }
}

/// The rows of the snapshot are the base scan, under an empty session layer.
pub open spec fn has_rows(s: LayerSnapshot, r: FileSync) -> bool {
    &&& r.layers.layers@.len() == 1
    &&& session_open(r)
    &&& r.base_count == r.files.items@.len() == s.files@.len()
    &&& r.live_count == r.base_count
    &&& r.files.capacity == r.base_count + MAX_OVERFLOW_FILES
    &&& r.dirs.capacity == r.base_dirs_count + MAX_OVERFLOW_FILES
    &&& base_order(s, r.file_models())
    &&& r.base_dirs_count == s.dirs@.len()
    &&& r.dir_models() == s.dir_models()
    &&& r.chunked_paths == Some(s.store)
}

/// `r` has the rows of the snapshot, with their scores set anew.
pub open spec fn is_restored(
    given: LayerSnapshot,
    frecency: Option<Seq<Option<FrecencyScores>>>,
    r: FileSync,
) -> bool {
    exists|s: LayerSnapshot| #[trigger] is_scored(given, frecency, s) && has_rows(s, r)
}

/// The session layer alone, open and empty.
pub open spec fn session_open(sync: FileSync) -> bool {
    &&& sync.layers.layers@[0].store == LayerStore::Open(None)
    &&& layers::label_text(sync.layers.layers@[0].label) == Some(layers::SESSION_LAYER_LABEL@)
}

proof fn lemma_all_live(files: Seq<FileModel>, n: int)
    requires
        0 <= n <= files.len(),
        forall|i: int| 0 <= i < n ==> !(#[trigger] files[i]).deleted,
    ensures
        sync::live_files(files, n) == n,
    decreases n,
{
    if n > 0 {
        lemma_all_live(files, n - 1);
        assert(!files[n - 1].deleted);
    }
}

proof fn lemma_all_dirs_live(dirs: Seq<DirModel>, n: int)
    requires
        0 <= n <= dirs.len(),
        forall|i: int| 0 <= i < n ==> !(#[trigger] dirs[i]).deleted,
    ensures
        sync::live_dirs(dirs, n) == n,
    decreases n,
{
    if n > 0 {
        lemma_all_dirs_live(dirs, n - 1);
        assert(!dirs[n - 1].deleted);
    }
}

/// Each row of `files` is one of `given`.
pub open spec fn rows_from(given: Seq<FileItem>, files: Seq<FileItem>, order: Seq<usize>) -> bool {
    &&& sorting::is_permutation(order, given.len())
    &&& files == sorting::permuted(given, order)
}

/// The parts of a restored index that do not depend on its files' order.
pub open spec fn restored_frame(s: LayerSnapshot, r: FileSync) -> bool {
    &&& s.wf()
    &&& r.files.wf()
    &&& r.dirs.wf()
    &&& r.files.items@.len() == s.files@.len() == r.base_count == r.live_count
    &&& r.indexable_count <= r.base_count
    &&& r.dirs.items@.len() == s.dirs@.len() == r.base_dirs_count == r.live_dirs_count
    &&& r.dirs.items@ == s.dirs@
    &&& r.layers.wf()
    &&& r.layers.layers@.len() == 1
    &&& r.layers.layers@[0].files_start == r.base_count
    &&& r.layers.layers@[0].dirs_start == r.base_dirs_count
    &&& !r.layers.layers@[0].sorted
    &&& r.open_file_index.is_clear()
    &&& r.open_file_index.start == 0
    &&& r.overlay_dir_index.is_clear()
    &&& r.overlay_dir_index.start == 0
    &&& r.chunked_paths == Some(s.store)
}

proof fn lemma_restored_frame(s: LayerSnapshot, r: FileSync, order: Seq<usize>)
    requires
        restored_frame(s, r),
        rows_from(s.files@, r.files.items@, order),
    ensures
        r.wf(),
        r.file_models() == sorting::permuted(s.file_models(), order),
        r.dir_models() == s.dir_models(),
{
    assert forall|i: int| 0 <= i < r.files.items@.len() implies #[trigger] r.file_ok(i)
        && r.file_models()[i] == s.file_models()[order[i] as int] by {
        let k = order[i] as int;
        assert(r.files.items@[i] == s.files@[k]);
        assert(s.store.names_path(s.files@[k].path));
    }
    assert forall|i: int| 0 <= i < r.dirs.items@.len() implies #[trigger] r.dir_ok(i) by {
        assert(s.store.names_path(s.dirs@[i].path));
    }
    assert(r.dir_models() =~= s.dir_models());
    assert(r.file_models() =~= sorting::permuted(s.file_models(), order)) by {
        assert forall|i: int| 0 <= i < r.files.items@.len() implies r.file_models()[i]
            == sorting::permuted(s.file_models(), order)[i] by {
            assert(r.file_ok(i));
        }
    }
    assert forall|i: int| 0 <= i < r.file_models().len() implies !(
    #[trigger] r.file_models()[i]).deleted by {
        let k = order[i] as int;
        assert(r.files.items@[i] == s.files@[k]);
        assert(!s.files@[k].deleted());
    }
    lemma_all_live(r.file_models(), r.files.items@.len() as int);
    assert forall|i: int| 0 <= i < r.dir_models().len() implies !(
    #[trigger] r.dir_models()[i]).deleted by {
        assert(!s.dirs@[i].deleted());
    }
    lemma_all_dirs_live(r.dir_models(), r.dirs.items@.len() as int);
}

proof fn lemma_restored(s: LayerSnapshot, r: FileSync)
    requires
        restored_frame(s, r),
        match s.layout {
            SnapshotLayout::BasePartitioned => r.files.items@ == s.files@,
            SnapshotLayout::Sorted => exists|order: Seq<usize>| #[trigger]
                sorting::is_stable_order(s.files@, PartitionRanking {  }, order)
                    && r.files.items@ == sorting::permuted(s.files@, order),
            SnapshotLayout::Unsorted => sorting::is_ranked(
                r.files.items@,
                BaseRanking { store: &s.store },
            ) && exists|order: Seq<usize>| #[trigger]
                sorting::is_permutation(order, s.files@.len()) && r.files.items@
                    == sorting::permuted(s.files@, order),
        },
        forall|p: int| #[trigger] split_at(r.files.items@, p) ==> r.indexable_count == p,
    ensures
        r.wf(),
        base_order(s, r.file_models()),
        r.dir_models() == s.dir_models(),
        s.layout != SnapshotLayout::BasePartitioned || base_partitioned(s.file_models())
            ==> r.partitioned(),
        ordered_base(s) ==> r.ordered(),
{
    let n = s.files@.len();
    let order = match s.layout {
        SnapshotLayout::BasePartitioned => crate::file_picker::arrange::unmoved(n),
        SnapshotLayout::Sorted => choose|order: Seq<usize>| #[trigger]
            sorting::is_stable_order(s.files@, PartitionRanking {  }, order) && r.files.items@
                == sorting::permuted(s.files@, order),
        SnapshotLayout::Unsorted => choose|order: Seq<usize>| #[trigger]
            sorting::is_permutation(order, n) && r.files.items@ == sorting::permuted(
                s.files@,
                order,
            ),
    };
    if s.layout == SnapshotLayout::BasePartitioned {
        assert(sorting::permuted(s.files@, order) =~= s.files@);
        assert(sorting::permuted(s.file_models(), order) =~= s.file_models());
    }
    lemma_restored_frame(s, r, order);
    let files = r.file_models();
    assert forall|i: int| 0 <= i < n implies #[trigger] files[i] == s.file_models()[order[i] as int]
        && files[i].binary == r.files.items@[i].binary() by {}
    if s.layout == SnapshotLayout::Unsorted {
        let ranking = BaseRanking { store: &s.store };
        assert forall|i: int, j: int| 0 <= i < j < files.len() implies base_le(
            #[trigger] files[i],
            #[trigger] files[j],
        ) by {
            assert(ranking.le(r.files.items@[i], r.files.items@[j]));
            assert(files[i] == ranking.model(r.files.items@[i]));
            assert(files[j] == ranking.model(r.files.items@[j]));
        }
    }
    let parted = s.layout != SnapshotLayout::BasePartitioned || base_partitioned(s.file_models());
    if parted {
        assert forall|i: int, j: int|
            0 <= i < j < n && !(#[trigger] r.files.items@[j]).binary() implies !(
        #[trigger] r.files.items@[i]).binary() by {
            match s.layout {
                SnapshotLayout::BasePartitioned => {
                    assert(base_le(s.file_models()[i], s.file_models()[j]));
                },
                SnapshotLayout::Sorted => {
                    sorting::lemma_stable_order_ranks(s.files@, PartitionRanking {  }, order);
                    assert(PartitionRanking {  }.le(r.files.items@[i], r.files.items@[j]));
                },
                SnapshotLayout::Unsorted => {
                    assert(base_le(files[i], files[j]));
                },
            }
        }
        let p = lemma_split_exists(r.files.items@, n as int);
        assert(split_at(r.files.items@, p));
        assert forall|i: int| 0 <= i < files.len() implies (indexable(#[trigger] files[i]) <==> i
            < r.indexable_count) by {
            assert(!r.files.items@[i].binary() <==> i < p);
        }
    }
    if ordered_base(s) {
        lemma_restored_ordered(s, r, files, r.dir_models(), order);
    }
}

/// Where no indexable file stands behind another one, there is a cut.
proof fn lemma_split_exists(files: Seq<FileItem>, n: int) -> (p: int)
    requires
        0 <= n <= files.len(),
        forall|i: int, j: int|
            0 <= i < j < files.len() ==> (!(#[trigger] files[j]).binary() ==> !(
            #[trigger] files[i]).binary()),
    ensures
        0 <= p <= n,
        forall|i: int| 0 <= i < n ==> (!(#[trigger] files[i]).binary() <==> i < p),
    decreases n,
{
    if n == 0 {
        0
    } else if !files[n - 1].binary() {
        assert forall|i: int| 0 <= i < n implies (!(#[trigger] files[i]).binary() <==> i < n) by {
            if i < n - 1 {
                assert(!files[n - 1].binary() ==> !files[i].binary());
            }
        }
        n
    } else {
        let p = lemma_split_exists(files, n - 1);
        p
    }
}

/// The rows in a new order.
pub open spec fn reordered(s: LayerSnapshot, files: Seq<FileModel>, order: Seq<usize>) -> bool {
    &&& sorting::is_permutation(order, s.files@.len())
    &&& files == sorting::permuted(s.file_models(), order)
}

proof fn lemma_reordered_tidy(
    s: LayerSnapshot,
    files: Seq<FileModel>,
    dirs: Seq<DirModel>,
    order: Seq<usize>,
)
    requires
        s.wf(),
        s.ordered(),
        reordered(s, files, order),
        dirs == s.dir_models(),
    ensures
        forall|i: int, j: int|
            0 <= i < j < files.len() ==> (#[trigger] files[i]).path != (#[trigger] files[j]).path,
        forall|i: int| 0 <= i < files.len() ==> sync::tidy_file(#[trigger] files[i], dirs),
{
    let fs = s.file_models();
    assert forall|i: int, j: int| 0 <= i < j < files.len() implies (#[trigger] files[i]).path != (
    #[trigger] files[j]).path by {
        assert(order[i] != order[j]);
        if order[i] < order[j] {
            assert(fs[order[i] as int].path != fs[order[j] as int].path);
        } else {
            assert(fs[order[j] as int].path != fs[order[i] as int].path);
        }
    }
    assert forall|i: int| 0 <= i < files.len() implies sync::tidy_file(
        #[trigger] files[i],
        dirs,
    ) by {
        assert(sync::tidy_file(fs[order[i] as int], s.dir_models()));
    }
}

proof fn lemma_dirs_ascend(s: LayerSnapshot, dirs: Seq<DirModel>)
    requires
        s.wf(),
        s.ordered(),
        dirs == s.dir_models(),
    ensures
        forall|i: int, j: int|
            0 <= i < j < dirs.len() ==> (#[trigger] dirs[i]).path != (#[trigger] dirs[j]).path
                && bytes::lex_le(dirs[i].path, dirs[j].path),
{
    let ds = s.dir_models();
    assert forall|i: int, j: int| 0 <= i < j < dirs.len() implies (#[trigger] dirs[i]).path != (
    #[trigger] dirs[j]).path && bytes::lex_le(dirs[i].path, dirs[j].path) by {
        assert(!bytes::lex_le(ds[j].path, ds[i].path));
        bytes::lemma_lex_total(ds[i].path, ds[j].path);
        bytes::lemma_lex_reflexive(ds[i].path);
    }
}

/// How the order came about, by layout.
pub open spec fn order_of_layout(
    s: LayerSnapshot,
    files: Seq<FileModel>,
    order: Seq<usize>,
) -> bool {
    match s.layout {
        SnapshotLayout::BasePartitioned => files == s.file_models(),
        SnapshotLayout::Sorted => sorting::is_stable_order(s.files@, PartitionRanking {  }, order),
        SnapshotLayout::Unsorted => base_partitioned(files),
    }
}

proof fn lemma_parts_ascend(s: LayerSnapshot, files: Seq<FileModel>, order: Seq<usize>)
    requires
        s.wf(),
        ordered_base(s),
        reordered(s, files, order),
        order_of_layout(s, files, order),
    ensures
        forall|i: int, j: int|
            0 <= i < j < files.len() && indexable(files[i]) == indexable(files[j])
                ==> types::key_le((#[trigger] files[i]).key(), (#[trigger] files[j]).key()),
{
    let fs = s.file_models();
    assert forall|i: int, j: int|
        0 <= i < j < files.len() && indexable(files[i]) == indexable(
            files[j],
        ) implies types::key_le((#[trigger] files[i]).key(), (#[trigger] files[j]).key()) by {
        match s.layout {
            SnapshotLayout::BasePartitioned => {
                assert(base_le(fs[i], fs[j]));
            },
            SnapshotLayout::Sorted => {
                assert(files[i] == fs[order[i] as int]);
                assert(files[j] == fs[order[j] as int]);
                assert(sorting::comes_before(
                    s.files@,
                    PartitionRanking {  },
                    order[i],
                    order[j],
                ));
                assert(order[i] < order[j]);
                assert(types::key_le(fs[order[i] as int].key(), fs[order[j] as int].key()));
            },
            SnapshotLayout::Unsorted => {
                assert(base_le(files[i], files[j]));
            },
        }
    }
}

/// What [`FileSync::ordered`] asks of an index that is all base scan.
proof fn lemma_base_ordered(r: FileSync, files: Seq<FileModel>, dirs: Seq<DirModel>)
    requires
        files == r.file_models(),
        dirs == r.dir_models(),
        r.indexable_count <= r.base_count == files.len(),
        r.base_dirs_count == dirs.len(),
        r.layers.layers@.len() == 1,
        !r.layers.layers@[0].sorted,
        forall|i: int, j: int|
            0 <= i < j < files.len() ==> (#[trigger] files[i]).path != (#[trigger] files[j]).path,
        forall|i: int| 0 <= i < files.len() ==> sync::tidy_file(#[trigger] files[i], dirs),
        forall|i: int, j: int|
            0 <= i < j < dirs.len() ==> (#[trigger] dirs[i]).path != (#[trigger] dirs[j]).path
                && bytes::lex_le(dirs[i].path, dirs[j].path),
        sync::keys_ascend(files, 0, r.indexable_count as int),
        sync::keys_ascend(files, r.indexable_count as int, r.base_count as int),
    ensures
        r.ordered(),
{
}

proof fn lemma_restored_ordered(
    s: LayerSnapshot,
    r: FileSync,
    files: Seq<FileModel>,
    dirs: Seq<DirModel>,
    order: Seq<usize>,
)
    requires
        s.wf(),
        ordered_base(s),
        files == r.file_models(),
        dirs == r.dir_models(),
        reordered(s, files, order),
        dirs == s.dir_models(),
        order_of_layout(s, files, order),
        r.indexable_count <= r.base_count == files.len(),
        r.base_dirs_count == dirs.len(),
        r.layers.layers@.len() == 1,
        !r.layers.layers@[0].sorted,
        forall|i: int|
            0 <= i < files.len() ==> (indexable(#[trigger] files[i]) <==> i < r.indexable_count),
    ensures
        r.ordered(),
{
    assert(sync::keys_ascend(files, 0, r.indexable_count as int) && sync::keys_ascend(
        files,
        r.indexable_count as int,
        r.base_count as int,
    )) by {
        lemma_parts_ascend(s, files, order);
    }
    lemma_reordered_tidy(s, files, dirs, order);
    lemma_dirs_ascend(s, dirs);
    lemma_base_ordered(r, files, dirs);
}

} // verus!
