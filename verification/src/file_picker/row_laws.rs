//! What becomes of rows that are saved, loaded and scored anew.

use crate::bytes;
use crate::file_picker::adopt;
use crate::file_picker::arrange;
use crate::file_picker::attach;
use crate::file_picker::attach::Place;
use crate::file_picker::compact;
use crate::file_picker::entries::Outcome;
use crate::file_picker::entry_laws;
use crate::file_picker::export;
use crate::file_picker::picker;
use crate::file_picker::picker::FilePicker;
use crate::file_picker::restore;
use crate::file_picker::restore::{FrecencyScores, PartitionRanking};
use crate::file_picker::sync::{FileModel, FileSync};
use crate::index::codec::{LayerSnapshot, SnapshotLayout};
use crate::index::layers::LayerId;
use crate::sorting;
use crate::types::FileItem;
use vstd::prelude::*;

verus! {

/// A saved file says what its row does: its path, its size and times, and its
/// uses; it is in the directory with the same path.
pub proof fn law_saved_files_keep_their_rows(
    sync: FileSync,
    layer: LayerId,
    s: LayerSnapshot,
    t: int,
) -> (slot: int)
    requires
        sync.wf(),
        sync.layers.has_id(layer),
        export::is_export(sync, layer, s),
        0 <= t < s.files@.len(),
    ensures
        ({
            let (start, end) = sync.layers.file_span(layer - 1, sync.files.items@.len() as int);
            start <= slot < end
        }),
        !sync.files.items@[slot].deleted(),
        s.store.path(s.files@[t].path) == sync.file_text(slot),
        s.files@[t].size == sync.files.items@[slot].size,
        s.files@[t].modified == sync.files.items@[slot].modified,
        s.files@[t].binary() == sync.files.items@[slot].binary(),
        s.files@[t].path.filename_offset == sync.files.items@[slot].path.filename_offset,
        s.files@[t].access_frecency_score == sync.files.items@[slot].access_frecency_score,
        s.files@[t].modification_frecency_score
            == sync.files.items@[slot].modification_frecency_score,
        s.files@[t].git_recency_score == sync.files.items@[slot].git_recency_score,
        s.files@[t].git_modified == sync.files.items@[slot].git_modified,
        !s.files@[t].deleted(),
        s.files@[t].layer() == 0,
        s.dir_text(s.files@[t].parent_dir_index as int) == sync.dir_text(
            sync.files.items@[slot].parent_dir_index as int,
        ),
{
    let n = sync.files.items@.len() as int;
    let (start, end) = sync.layers.file_span(layer - 1, n);
    crate::index::layers::law_ranges_stay_in_bounds(sync.layers, layer - 1, n);
    let live = export::live_slots(sync.file_models(), start, end);
    export::lemma_live_slots(sync.file_models(), start, end);
    assert(export::exported_file(sync, s, t, live[t]));
    assert(s.file_models()[t].size == sync.file_models()[live[t]].size);
    live[t]
}

/// Every live file of a layer is saved with it.
pub proof fn law_live_files_are_saved(files: Seq<FileModel>, start: int, end: int, i: int)
    requires
        0 <= start <= i < end <= files.len(),
    ensures
        ({
            let saved = export::live_slots(files, start, end);
            let before = export::live_slots(files, start, i).len() as int;
            &&& !files[i].deleted ==> before < saved.len() && saved[before] == i
            &&& export::live_slots(files, start, i + 1).len() == before + if files[i].deleted {
                0int
            } else {
                1
            }
        }),
    decreases end - start,
{
    if end - 1 > i {
        law_live_files_are_saved(files, start, end - 1, i);
    }
}

/// A file of a layer that is loaded joins as a live row that says of it what the
/// layer does, in the directory that took the place of its own; other rows stay
/// as they are, or come back to life.
pub proof fn law_loaded_files_keep_their_rows(
    a: FileSync,
    b: FileSync,
    f: FileModel,
    at: Place,
    r: Outcome,
    found: Option<int>,
)
    requires
        attach::file_imported_at(a, b, f, at, r, found),
        at.known <= a.file_models().len(),
    ensures
        a.file_models().len() <= b.file_models().len() <= a.file_models().len() + 1,
        forall|j: int|
            0 <= j < a.file_models().len() ==> entry_laws::is_kept(
                a.file_models()[j],
                #[trigger] b.file_models()[j],
            ),
        b.file_models().len() > a.file_models().len() ==> {
            let row = b.file_models().last();
            &&& found is None
            &&& r == Outcome::Added
            &&& row.path == f.path
            &&& row.filename_offset == f.filename_offset
            &&& row.size == f.size
            &&& row.modified == f.modified
            &&& row.binary == f.binary
            &&& row.access_frecency == f.access_frecency
            &&& row.modification_frecency == f.modification_frecency
            &&& row.git_recency == f.git_recency
            &&& row.git_modified == f.git_modified
            &&& !row.deleted
            &&& row.layer == at.layer
            &&& row.parent == at.map[f.parent as int]
        },
        found is None && a.file_models().len() < at.room ==> b.file_models().len()
            == a.file_models().len() + 1,
        found matches Some(i) ==> b.file_models().len() == a.file_models().len()
            && !b.file_models()[i].deleted && b.file_models()[i].path == f.path && (r
            == Outcome::Added <==> a.file_models()[i].deleted),
{
    let m = attach::import_state(a, 0, false);
    assert(attach::import_file_in(m, f, at, found) == attach::import_state(
        b,
        0 + r.count(),
        r == Outcome::Full,
    ));
    if let Some(i) = found {
        assert(a.file_text(i) == f.path);
    }
}

/// Where two layers become one, rows keep all that they say; those of the upper
/// one come to the lower one's id, and those above move down by one.
pub proof fn law_merged_rows_keep_what_they_say(
    a: FileSync,
    b: FileSync,
    at: int,
    i: int,
) -> (k: int)
    requires
        compact::rows_merged(a, b, at),
        0 <= at < 4,
        0 <= i < b.file_models().len(),
    ensures
        0 <= k < a.file_models().len(),
        b.file_models().len() == a.file_models().len(),
        ({
            let row = b.file_models()[i];
            let was = a.file_models()[k];
            &&& row.path == was.path
            &&& row.filename_offset == was.filename_offset
            &&& row.size == was.size
            &&& row.modified == was.modified
            &&& row.binary == was.binary
            &&& row.deleted == was.deleted
            &&& row.parent == was.parent
            &&& row.access_frecency == was.access_frecency
            &&& row.modification_frecency == was.modification_frecency
            &&& row.git_recency == was.git_recency
            &&& row.git_modified == was.git_modified
            &&& was.layer <= at + 1 ==> row.layer == was.layer
            &&& was.layer > at + 1 ==> row.layer == was.layer - 1
        }),
        i < a.file_starts()[at] ==> k == i,
{
    let n = a.files.items@.len();
    assert(a.file_models().len() == n);
    let first = (at + 1) as LayerId;
    let order = choose|order: Seq<usize>| #[trigger]
        sorting::is_permutation(order, n) && arrange::moves_within(
            order,
            a.file_starts()[at] as int,
            compact::merged_end(a, at),
        ) && b.file_models().len() == a.file_models().len() && forall|i: int|
            0 <= i < b.file_models().len() ==> #[trigger] b.file_models()[i] == compact::shifted(
                a.file_models()[order[i] as int],
                first,
            );
    assert(b.file_models()[i] == compact::shifted(a.file_models()[order[i] as int], first));
    order[i] as int
}

/// After a rescan a path is live where the new scan has it, or where an explicit
/// layer had it; what only the session layer had is left to be found again.
pub proof fn law_explicit_layers_survive_a_rescan(
    base: FileSync,
    before: FileSync,
    after: FileSync,
    path: Seq<u8>,
)
    requires
        before.wf(),
        base.ordered(),
        before.ordered(),
        picker::is_committed(base, before, after),
    ensures
        adopt::is_live(after.file_models(), path) <==> adopt::is_live(base.file_models(), path)
            || exists|i: int|
            0 <= i < before.file_models().len() && (#[trigger] before.file_models()[i]).path == path
                && !before.file_models()[i].deleted && before.file_models()[i].layer >= 2,
        forall|i: int|
            0 <= i < base.base_count ==> entry_laws::is_kept(
                base.file_models()[i],
                #[trigger] after.file_models()[i],
            ),
        after.base_count == base.base_count,
{
    let files = before.file_models();
    let n = before.layers.layers@.len() as int;
    let start = adopt::layer_start(before, 1);
    let end = adopt::layer_start(before, n);
    assert(adopt::adopted_upto(base, after, before, n));
    assert(end == files.len());
    assert forall|i: int| 0 <= i < files.len() implies ((#[trigger] files[i]).layer >= 2 <==> start
        <= i) by {
        assert(before.file_ok(i));
        let l = files[i].layer as int;
        if n > 1 {
            assert(before.file_starts()[0] <= before.file_starts()[1]);
            if 2 <= l <= n {
                assert(before.file_starts()[1] <= before.file_starts()[l - 1]);
            }
        }
    }
    if adopt::has_live(files, start, end, path) {
        let i = choose|i: int| start <= i < end && #[trigger] adopt::live_at(files, path, i);
        assert(files[i].layer >= 2);
    }
    if exists|i: int|
        0 <= i < files.len() && (#[trigger] files[i]).path == path && !files[i].deleted
            && files[i].layer >= 2 {
        let i = choose|i: int|
            0 <= i < files.len() && (#[trigger] files[i]).path == path && !files[i].deleted
                && files[i].layer >= 2;
        assert(adopt::live_at(files, path, i));
    }
}

/// Whatever room a picker had, loading a layer makes every file of it live, keeps
/// what was live, and adds nothing else.
pub proof fn law_loaded_layers_are_live(
    before: FilePicker,
    after: FilePicker,
    snapshot: LayerSnapshot,
    layer: LayerId,
    path: Seq<u8>,
)
    requires
        before.wf(),
        snapshot.wf(),
        picker::layer_imported(before.sync_data, after.sync_data, snapshot, layer),
    ensures
        adopt::is_live(after.sync_data.file_models(), path) <==> adopt::is_live(
            before.sync_data.file_models(),
            path,
        ) || exists|i: int|
            0 <= i < snapshot.files@.len() && snapshot.store.path(
                (#[trigger] snapshot.files@[i]).path,
            ) == path,
{
    let a = before.sync_data;
    let (g, added) = choose|g: FileSync, added: usize| #[trigger]
        attach::is_attached(g, after.sync_data, snapshot, layer, added) && adopt::grown(
            a,
            g,
            snapshot.files@.len() as int,
            snapshot.dirs@.len() as int,
        );
    let n = snapshot.files@.len() as int;
    adopt::lemma_grown(a, g, n, snapshot.dirs@.len() as int);
    adopt::law_import_adds_every_file(g, after.sync_data, snapshot, layer, added, path);
    if adopt::entries_upto(snapshot.file_models(), n, path) {
        let i = choose|i: int|
            0 <= i < n && (#[trigger] snapshot.file_models()[i]).path == path;
        assert(snapshot.store.path(snapshot.files@[i].path) == path);
    }
    if exists|i: int|
        0 <= i < snapshot.files@.len() && snapshot.store.path((#[trigger] snapshot.files@[i]).path)
            == path {
        let i = choose|i: int|
            0 <= i < snapshot.files@.len() && snapshot.store.path(
                (#[trigger] snapshot.files@[i]).path,
            ) == path;
        assert(snapshot.file_models()[i].path == path);
    }
}

/// The uses that were found for a file are set, each in its place; everything
/// else stays as it was, and so does a file for which none were found.
pub proof fn law_found_uses_are_set(file: FileItem, scores: Option<FrecencyScores>)
    ensures
        ({
            let r = restore::with_scores(file, scores);
            &&& scores matches Some(found) ==> r.access_frecency_score == found.access
                && r.modification_frecency_score == found.modification
            &&& scores is None ==> r.access_frecency_score == file.access_frecency_score
                && r.modification_frecency_score == file.modification_frecency_score
            &&& r.path == file.path
            &&& r.size == file.size
            &&& r.modified == file.modified
            &&& r.parent_dir_index == file.parent_dir_index
            &&& r.git_recency_score == file.git_recency_score
            &&& r.git_modified == file.git_modified
            &&& r.flags == file.flags
        }),
{
}

/// The use of a directory is the highest of those of the files in it, none
/// below zero.
pub proof fn law_directories_are_used_as_their_files(files: Seq<FileItem>, d: int, n: int)
    requires
        0 <= n <= files.len(),
    ensures
        restore::top_access(files, d, n) >= 0,
        forall|i: int|
            0 <= i < n && (#[trigger] files[i]).parent_dir_index == d ==> restore::top_access(
                files,
                d,
                n,
            ) >= files[i].access_frecency_score,
        restore::top_access(files, d, n) == 0 || exists|i: int|
            0 <= i < n && (#[trigger] files[i]).parent_dir_index == d && restore::top_access(
                files,
                d,
                n,
            ) == files[i].access_frecency_score,
    decreases n,
{
    if n > 0 {
        law_directories_are_used_as_their_files(files, d, n - 1);
        if restore::top_access(files, d, n) == restore::top_access(files, d, n - 1) {
            if restore::top_access(files, d, n) != 0 {
                let i = choose|i: int|
                    0 <= i < n - 1 && (#[trigger] files[i]).parent_dir_index == d
                        && restore::top_access(files, d, n - 1) == files[i].access_frecency_score;
                assert(files[i].parent_dir_index == d);
            }
        } else {
            assert(files[n - 1].parent_dir_index == d);
        }
    }
}

/// In a base scan text files come before binary ones, and each kind in the order
/// of directories, then of names.
pub proof fn law_base_scans_are_partitioned(files: Seq<FileModel>, i: int, j: int)
    requires
        restore::base_partitioned(files),
        0 <= i < j < files.len(),
    ensures
        files[i].binary ==> files[j].binary,
        files[i].binary == files[j].binary ==> {
            let a = files[i].key();
            let b = files[j].key();
            &&& a.dir == b.dir ==> bytes::lex_le(a.name, b.name)
            &&& a.dir != b.dir ==> bytes::lex_le(a.dir, b.dir)
        },
        files[i].key().dir == files[i].path.take(files[i].filename_offset as int),
        files[i].key().name == files[i].path.skip(files[i].filename_offset as int),
{
    assert(restore::base_le(files[i], files[j]));
}

/// A base that was stored in order becomes one whose text files come first, each
/// kind in the order that it had.
pub proof fn law_text_files_come_first(s: LayerSnapshot, files: Seq<FileModel>, i: int, j: int)
    requires
        s.wf(),
        s.layout == SnapshotLayout::Sorted,
        restore::base_order(s, files),
        0 <= i < j < files.len(),
    ensures
        files[i].binary ==> files[j].binary,
        files[i].binary == files[j].binary ==> exists|x: int, y: int|
            0 <= x < y < s.files@.len() && files[i] == #[trigger] s.file_models()[x] && files[j]
                == #[trigger] s.file_models()[y],
{
    let ranking = PartitionRanking {  };
    let order = choose|order: Seq<usize>| #[trigger]
        sorting::is_stable_order(s.files@, ranking, order) && files == sorting::permuted(
            s.file_models(),
            order,
        );
    let x = order[i];
    let y = order[j];
    assert(sorting::comes_before(s.files@, ranking, x, y));
    assert(files[i] == s.file_models()[x as int]);
    assert(files[j] == s.file_models()[y as int]);
}

} // verus!
