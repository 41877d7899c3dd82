//! Carrying overlays over to another base scan.

use crate::bytes;
use crate::file_picker::arrange;
use crate::file_picker::attach;
use crate::file_picker::attach::{DirImport, FileImport, Place};
use crate::file_picker::entries;
use crate::file_picker::export;
use crate::file_picker::layer_ops;
use crate::file_picker::sync;
use crate::file_picker::sync::{DirModel, FileModel, FileSync};
use crate::index::codec::{LayerSnapshot, SnapshotLayout};
use crate::index::layers;
use crate::index::layers::{LayerId, MAX_OVERFLOW_FILES, SESSION_LAYER};
use crate::sorting;
use crate::types;
use vstd::prelude::*;

verus! {

/// Row `i` is a live file with this path.
pub open spec fn live_at(files: Seq<FileModel>, path: Seq<u8>, i: int) -> bool {
    0 <= i < files.len() && files[i].path == path && !files[i].deleted
}

/// Some live file in a range of rows has this path.
pub open spec fn has_live(files: Seq<FileModel>, start: int, end: int, path: Seq<u8>) -> bool {
    exists|i: int| start <= i < end && #[trigger] live_at(files, path, i)
}

/// Some live file has this path.
pub open spec fn is_live(files: Seq<FileModel>, path: Seq<u8>) -> bool {
    has_live(files, 0, files.len() as int, path)
}

proof fn lemma_dirs_fit(
    m: DirImport,
    dirs: Seq<DirModel>,
    n: int,
    layer: LayerId,
    room: nat,
)
    requires
        !m.stopped,
        m.map.len() == 0,
        0 <= n <= dirs.len(),
        m.dirs.len() + n <= room,
    ensures
        !attach::import_dirs_upto(m, dirs, n, layer, room).stopped,
        attach::import_dirs_upto(m, dirs, n, layer, room).map.len() == n,
        attach::import_dirs_upto(m, dirs, n, layer, room).dirs.len() <= m.dirs.len() + n,
    decreases n,
{
    if n > 0 {
        lemma_dirs_fit(m, dirs, n - 1, layer, room);
    }
}

/// The rows that were there keep their paths and, where they were live, stay
/// so; the new ones are live.
pub open spec fn rows_live_on(before: Seq<FileModel>, after: Seq<FileModel>) -> bool {
    &&& before.len() <= after.len()
    &&& forall|i: int|
        0 <= i < before.len() ==> (#[trigger] after[i]) == before[i] || after[i]
            == entries::live_file(before[i])
    &&& forall|i: int| before.len() <= i < after.len() ==> !(#[trigger] after[i]).deleted
}

proof fn lemma_files_fit(m: FileImport, files: Seq<FileModel>, n: int, at: Place)
    requires
        !m.stopped,
        at.known == m.files.len(),
        0 <= n <= files.len(),
        m.files.len() + n <= at.room,
        forall|i: int| 0 <= i < files.len() ==> (#[trigger] files[i]).parent < at.map.len(),
    ensures
        ({
            let r = attach::import_files_upto(m, files, n, at);
            &&& !r.stopped
            &&& r.files.len() <= m.files.len() + n
            &&& rows_live_on(m.files, r.files)
            &&& forall|path: Seq<u8>| #[trigger]
                is_live(r.files, path) <==> is_live(m.files, path) || entries_upto(files, n, path)
        }),
    decreases n,
{
    if n > 0 {
        lemma_files_fit(m, files, n - 1, at);
        let p = attach::import_files_upto(m, files, n - 1, at);
        let f = files[n - 1];
        let r = attach::import_file(p, f, at);
        let known = p.files.take(at.known);
        assert forall|path: Seq<u8>| #[trigger] is_live(r.files, path) <==> is_live(p.files, path)
            || path == f.path by {
            lemma_import_one(p, f, at, path);
        }
        assert(rows_live_on(m.files, r.files)) by {
            if let Some(i) = entries::find_file(known, f.path) {
                assert(entries::file_at(known, f.path, i));
            }
        }
        assert forall|path: Seq<u8>| #[trigger] is_live(r.files, path) <==> is_live(m.files, path)
            || entries_upto(files, n, path) by {
            assert(is_live(p.files, path) <==> is_live(m.files, path) || entries_upto(
                files,
                n - 1,
                path,
            ));
            lemma_entries_step(files, n, path);
        }
    } else {
        assert forall|path: Seq<u8>| !#[trigger] entries_upto(files, 0, path) by {}
    }
}

/// One of the first `n` files has this path.
pub open spec fn entries_upto(files: Seq<FileModel>, n: int, path: Seq<u8>) -> bool {
    exists|i: int| 0 <= i < n && (#[trigger] files[i]).path == path
}

proof fn lemma_entries_step(files: Seq<FileModel>, n: int, path: Seq<u8>)
    requires
        0 < n <= files.len(),
    ensures
        entries_upto(files, n, path) <==> entries_upto(files, n - 1, path) || path == files[n
            - 1].path,
{
    if entries_upto(files, n, path) {
        let i = choose|i: int| 0 <= i < n && (#[trigger] files[i]).path == path;
        if i < n - 1 {
            assert(entries_upto(files, n - 1, path));
        }
    }
    if entries_upto(files, n - 1, path) {
        let i = choose|i: int| 0 <= i < n - 1 && (#[trigger] files[i]).path == path;
        assert(0 <= i < n && files[i].path == path);
    }
    if path == files[n - 1].path {
        assert(entries_upto(files, n, path));
    }
}

proof fn lemma_import_one(p: FileImport, f: FileModel, at: Place, path: Seq<u8>)
    requires
        !p.stopped,
        0 <= at.known <= p.files.len() < at.room,
        f.parent < at.map.len(),
    ensures
        is_live(attach::import_file(p, f, at).files, path) <==> is_live(p.files, path) || path
            == f.path,
{
    let known = p.files.take(at.known);
    let found = entries::find_file(known, f.path);
    if let Some(i) = found {
        assert(entries::file_at(known, f.path, i));
        assert(known[i] == p.files[i]);
    }
    lemma_import_in(p, f, at, found, path);
}

/// Whatever row with its path is found, a file is live once it joined.
proof fn lemma_import_in(
    p: FileImport,
    f: FileModel,
    at: Place,
    found: Option<int>,
    path: Seq<u8>,
)
    requires
        p.files.len() < at.room,
        found matches Some(i) ==> 0 <= i < p.files.len() && p.files[i].path == f.path,
    ensures
        is_live(attach::import_file_in(p, f, at, found).files, path) <==> is_live(p.files, path)
            || path == f.path,
{
    let r = attach::import_file_in(p, f, at, found);
    match found {
        Some(i) => {
            assert(live_at(r.files, f.path, i));
            if is_live(p.files, path) {
                let k = choose|k: int|
                    0 <= k < p.files.len() && #[trigger] live_at(p.files, path, k);
                assert(live_at(r.files, path, k));
            }
            if is_live(r.files, path) {
                let k = choose|k: int|
                    0 <= k < r.files.len() && #[trigger] live_at(r.files, path, k);
                if k != i {
                    assert(live_at(p.files, path, k));
                }
            }
        },
        None => {
            let k = p.files.len() as int;
            assert(live_at(r.files, f.path, k));
            if is_live(p.files, path) {
                let k = choose|k: int|
                    0 <= k < p.files.len() && #[trigger] live_at(p.files, path, k);
                assert(live_at(r.files, path, k));
            }
            if is_live(r.files, path) {
                let j = choose|j: int|
                    0 <= j < r.files.len() && #[trigger] live_at(r.files, path, j);
                if j != k {
                    assert(live_at(p.files, path, j));
                }
            }
        },
    }
}

/// Rows that only changed places, or layers, have the same live paths.
pub proof fn lemma_live_moved(
    before: Seq<FileModel>,
    after: Seq<FileModel>,
    order: Seq<usize>,
    path: Seq<u8>,
)
    requires
        before.len() <= usize::MAX,
        sorting::is_permutation(order, before.len()),
        after.len() == before.len(),
        forall|i: int|
            0 <= i < after.len() ==> (#[trigger] after[i]).path == before[order[i] as int].path
                && after[i].deleted == before[order[i] as int].deleted,
    ensures
        is_live(after, path) <==> is_live(before, path),
{
    if is_live(after, path) {
        let i = choose|i: int| 0 <= i < after.len() && #[trigger] live_at(after, path, i);
        assert(live_at(before, path, order[i] as int));
    }
    if is_live(before, path) {
        let k = choose|k: int| 0 <= k < before.len() && #[trigger] live_at(before, path, k);
        sorting::lemma_permutation_covers(order, before.len(), k as usize);
        let i = choose|i: int| 0 <= i < order.len() && order[i] == k as usize;
        assert(live_at(after, path, i));
    }
}

/// While directories join, the files stay, and no more rows join than there
/// are directories.
proof fn lemma_dir_chain(states: Seq<FileSync>, map: Seq<u32>, rows: Seq<DirModel>, k: int)
    requires
        attach::is_dir_chain(states, map, rows),
        0 <= k <= map.len(),
    ensures
        states[k].file_models() == states[0].file_models(),
        states[k].dir_models().len() <= states[0].dir_models().len() + k,
        states[k].dirs.capacity == states[0].dirs.capacity,
        states[k].files.capacity == states[0].files.capacity,
    decreases k,
{
    if k > 0 {
        lemma_dir_chain(states, map, rows, k - 1);
        assert(attach::dir_imported(states[k - 1], states[k], rows[k - 1], map[k - 1]));
    }
}

/// Files that have room join one by one, and each is live from then on.
proof fn lemma_file_chain(
    states: Seq<FileSync>,
    outcomes: Seq<entries::Outcome>,
    rows: Seq<FileModel>,
    at: Place,
    k: int,
    path: Seq<u8>,
)
    requires
        attach::is_file_chain(states, outcomes, rows, at),
        0 <= k <= outcomes.len(),
        0 <= at.known <= states[0].file_models().len(),
        states[0].file_models().len() + rows.len() <= at.room,
        forall|i: int| 0 <= i < rows.len() ==> (#[trigger] rows[i]).parent < at.map.len(),
    ensures
        states[0].file_models().len() <= states[k].file_models().len()
            <= states[0].file_models().len() + k,
        k > 0 ==> outcomes[k - 1] != entries::Outcome::Full,
        is_live(states[k].file_models(), path) <==> is_live(states[0].file_models(), path)
            || entries_upto(rows, k, path),
    decreases k,
{
    if k > 0 {
        lemma_file_chain(states, outcomes, rows, at, k - 1, path);
        let a = states[k - 1];
        let b = states[k];
        let f = rows[k - 1];
        let r = outcomes[k - 1];
        assert(attach::file_imported(a, b, f, at, r));
        let found = choose|found: Option<int>| #[trigger]
            attach::file_imported_at(a, b, f, at, r, found);
        let m = attach::import_state(a, 0, false);
        assert(attach::import_file_in(m, f, at, found) == attach::import_state(
            b,
            0 + r.count(),
            r == entries::Outcome::Full,
        ));
        if let Some(i) = found {
            assert(a.file_models()[i].path == f.path);
        }
        lemma_import_in(m, f, at, found, path);
        lemma_entries_step(rows, k, path);
    }
}

/// Attaching a snapshot to an index with room for it makes each of its files
/// live, keeps what was live, and adds nothing else.
pub proof fn law_import_adds_every_file(
    before: FileSync,
    after: FileSync,
    snapshot: LayerSnapshot,
    layer: LayerId,
    added: usize,
    path: Seq<u8>,
)
    requires
        before.wf(),
        snapshot.wf(),
        attach::is_attached(before, after, snapshot, layer, added),
        before.files.items@.len() + snapshot.files@.len() <= before.files.capacity,
        before.dirs.items@.len() + snapshot.dirs@.len() <= before.dirs.capacity,
    ensures
        is_live(after.file_models(), path) <==> is_live(before.file_models(), path) || entries_upto(
            snapshot.file_models(),
            snapshot.files@.len() as int,
            path,
        ),
{
    let base = choose|base: FileSync| #[trigger]
        attach::room_made(before, base) && layer == base.layers.layers@.len() + 1
            && attach::layer_attached(base, after, snapshot) && arrange::same_base(base, after)
            && attach::rows_joined(base, after, snapshot, added);
    let n = before.files.items@.len();
    assert(before.file_models().len() == n);
    assert(before.dir_models().len() == before.dirs.items@.len());
    let first = choose|order: Seq<usize>| #[trigger]
        sorting::is_permutation(order, n) && arrange::moves_within(
            order,
            before.fixed_slots(),
            n as int,
        ) && layer_ops::is_carried(
            before.file_models(),
            base.file_models(),
            before.is_full(),
            order,
        );
    lemma_live_moved(before.file_models(), base.file_models(), first, path);
    assert(base.file_models().len() == base.files.items@.len());
    assert(base.dir_models().len() == base.dirs.items@.len());
    let (opened, with_dirs, filled, map) = choose|
        opened: FileSync,
        with_dirs: FileSync,
        filled: FileSync,
        map: Seq<u32>,
    | #[trigger]
        attach::joined_through(base, after, snapshot, added, opened, with_dirs, filled, map);
    assert(opened.layers.layers@.take(base.layers.layers@.len() as int) =~= base.layers.layers@);
    assert(opened.layers.wf()) by {
        assert forall|i: int| 0 <= i < opened.layers.layers@.len() implies (
        #[trigger] opened.layers.layers@[i]).store.wf() by {
            if i < base.layers.layers@.len() {
                assert(opened.layers.layers@[i] == base.layers.layers@[i]);
            }
        }
    }
    layer_ops::lemma_opened(base, opened);
    let drows = snapshot.dir_models();
    let dstates = choose|states: Seq<FileSync>| #[trigger]
        attach::is_dir_chain(states, map, drows) && states[0] == opened && with_dirs.same_tables(
            states.last(),
        );
    lemma_dir_chain(dstates, map, drows, map.len() as int);
    assert(with_dirs.file_models() =~= dstates.last().file_models());
    let rows = snapshot.file_models();
    let at = Place {
        map,
        layer: (base.layers.layers@.len() + 1) as LayerId,
        room: base.files.capacity as nat,
        known: base.files.items@.len() as int,
    };
    assert(map.len() == drows.len());
    assert forall|i: int| 0 <= i < rows.len() implies (#[trigger] rows[i]).parent
        < at.map.len() by {
        assert(snapshot.files@[i].parent_dir_index < snapshot.dirs@.len());
    }
    let (states, outcomes) = choose|states: Seq<FileSync>, outcomes: Seq<entries::Outcome>|
        #[trigger]
        attach::is_file_chain(states, outcomes, rows, at) && states[0] == with_dirs
            && states.last() == filled && added == entries::count_added(
            outcomes,
            outcomes.len() as int,
        );
    lemma_file_chain(states, outcomes, rows, at, outcomes.len() as int, path);
    assert(outcomes.len() == rows.len());
    if !(snapshot.layout == crate::index::codec::SnapshotLayout::Sorted) {
        let second = choose|order: Seq<usize>| #[trigger]
            sorting::is_permutation(order, filled.file_models().len()) && arrange::moves_within(
                order,
                at.known,
                filled.file_models().len() as int,
            ) && after.file_models() == sorting::permuted(filled.file_models(), order);
        lemma_live_moved(filled.file_models(), after.file_models(), second, path);
    }
}

/// The files of an export are the live files of the layer.
proof fn lemma_export_lists(sync: FileSync, layer: LayerId, s: LayerSnapshot, path: Seq<u8>)
    requires
        sync.wf(),
        sync.layers.has_id(layer),
        export::is_export(sync, layer, s),
    ensures
        entries_upto(s.file_models(), s.files@.len() as int, path) <==> has_live(
            sync.file_models(),
            sync.layers.file_span(layer - 1, sync.files.items@.len() as int).0,
            sync.layers.file_span(layer - 1, sync.files.items@.len() as int).1,
            path,
        ),
{
    let (start, end) = sync.layers.file_span(layer - 1, sync.files.items@.len() as int);
    let files = sync.file_models();
    let live = export::live_slots(files, start, end);
    arrange::lemma_span(sync, layer - 1);
    export::lemma_live_slots(files, start, end);
    let rows = s.file_models();
    if entries_upto(rows, s.files@.len() as int, path) {
        let t = choose|t: int| 0 <= t < s.files@.len() && (#[trigger] rows[t]).path == path;
        assert(export::exported_file(sync, s, t, live[t]));
        assert(live_at(files, path, live[t]));
    }
    if has_live(files, start, end, path) {
        let i = choose|i: int| start <= i < end && #[trigger] live_at(files, path, i);
        assert(live.contains(i));
        let t = choose|t: int| 0 <= t < live.len() && live[t] == i;
        assert(export::exported_file(sync, s, t, live[t]));
        assert(rows[t].path == path);
    }
}

/// An export of an ordered index is ordered.
pub proof fn law_exports_are_ordered(sync: FileSync, layer: LayerId, s: LayerSnapshot)
    requires
        sync.wf(),
        sync.ordered(),
        sync.layers.has_id(layer),
        s.wf(),
        export::is_export(sync, layer, s),
    ensures
        s.ordered(),
{
    let (start, end) = sync.layers.file_span(layer - 1, sync.files.items@.len() as int);
    let files = sync.file_models();
    let live = export::live_slots(files, start, end);
    arrange::lemma_span(sync, layer - 1);
    export::lemma_live_slots(files, start, end);
    let globals = choose|globals: Seq<u32>| #[trigger]
        export::exported_dirs(sync, layer, s, globals);
    let rows = s.file_models();
    let dirs = s.dir_models();
    let all = sync.dir_models();
    assert forall|i: int, j: int| 0 <= i < j < rows.len() implies (#[trigger] rows[i]).path != (
    #[trigger] rows[j]).path by {
        assert(live[i] < live[j]);
        assert(export::exported_file(sync, s, i, live[i]));
        assert(export::exported_file(sync, s, j, live[j]));
        assert(files[live[i]].path != files[live[j]].path);
    }
    assert forall|x: int, y: int| 0 <= x < y < dirs.len() implies !bytes::lex_le(
        (#[trigger] dirs[y]).path,
        (#[trigger] dirs[x]).path,
    ) by {
        assert(bytes::lex_le(s.dir_text(x), s.dir_text(y)));
        let a = globals[x] as int;
        let b = globals[y] as int;
        assert(dirs[x].path == all[a].path && dirs[y].path == all[b].path);
        assert(a != b);
        if a < b {
            assert(all[a].path != all[b].path);
        } else {
            assert(all[b].path != all[a].path);
        }
        if bytes::lex_le(dirs[y].path, dirs[x].path) {
            bytes::lemma_lex_antisymmetric(dirs[x].path, dirs[y].path);
        }
    }
    assert forall|t: int| 0 <= t < rows.len() implies sync::tidy_file(
        #[trigger] rows[t],
        dirs,
    ) by {
        assert(export::exported_file(sync, s, t, live[t]));
        assert(sync::tidy_file(files[live[t]], all));
        assert(s.files@[t].parent_dir_index < s.dirs@.len());
        assert(dirs[rows[t].parent as int].path == all[files[live[t]].parent as int].path);
    }
    if s.layout == SnapshotLayout::Sorted {
        assert(sync.layers.layers@[layer - 1].sorted);
        assert(sync::keys_ascend(files, start, end));
        assert forall|i: int, j: int| 0 <= i < j < rows.len() implies types::key_le(
            (#[trigger] rows[i]).key(),
            (#[trigger] rows[j]).key(),
        ) by {
            assert(live[i] < live[j]);
            assert(export::exported_file(sync, s, i, live[i]));
            assert(export::exported_file(sync, s, j, live[j]));
            assert(types::key_le(files[live[i]].key(), files[live[j]].key()));
        }
    }
}

/// The labels of the layers, oldest first.
pub open spec fn labels_of(sync: FileSync) -> Seq<Option<Seq<char>>> {
    Seq::new(
        sync.layers.layers@.len(),
        |i: int| layers::label_text(sync.layers.layers@[i].label),
    )
}

/// Layer `i` holds nothing worth keeping: no live file, and no label.
pub open spec fn is_bare(sync: FileSync, i: int) -> bool {
    let (start, end) = sync.layers.file_span(i, sync.files.items@.len() as int);
    &&& export::live_slots(sync.file_models(), start, end).len() == 0
    &&& layers::label_text(sync.layers.layers@[i].label) is None
}

/// The labels of the explicit layers among the first `n` that are kept.
pub open spec fn kept_labels(sync: FileSync, n: int) -> Seq<Option<Seq<char>>>
    decreases n,
{
    if n <= 1 {
        Seq::empty()
    } else if is_bare(sync, n - 1) {
        kept_labels(sync, n - 1)
    } else {
        kept_labels(sync, n - 1).push(layers::label_text(sync.layers.layers@[n - 1].label))
    }
}

/// Where layer `n` of the file table starts, counted from the session layer;
/// the end of the table where there is no such layer.
pub open spec fn layer_start(sync: FileSync, n: int) -> int {
    if n < sync.layers.layers@.len() {
        sync.file_starts()[n] as int
    } else {
        sync.files.items@.len() as int
    }
}

/// Only the room in the tables changed, where what comes would not fit.
pub open spec fn grown(a: FileSync, b: FileSync, files_extra: int, dirs_extra: int) -> bool {
    &&& b == (FileSync { files: b.files, dirs: b.dirs, ..a })
    &&& b.files.items == a.files.items
    &&& b.dirs.items == a.dirs.items
    &&& b.files.capacity == if a.files.items@.len() + files_extra > a.files.capacity {
        a.files.items@.len() + files_extra + MAX_OVERFLOW_FILES
    } else {
        a.files.capacity as int
    }
    &&& b.dirs.capacity == if a.dirs.items@.len() + dirs_extra > a.dirs.capacity {
        a.dirs.items@.len() + dirs_extra + MAX_OVERFLOW_FILES
    } else {
        a.dirs.capacity as int
    }
}

pub proof fn lemma_grown(a: FileSync, b: FileSync, files_extra: int, dirs_extra: int)
    requires
        a.wf(),
        grown(a, b, files_extra, dirs_extra),
        files_extra >= 0,
        dirs_extra >= 0,
    ensures
        b.wf(),
        b.file_models() == a.file_models(),
        b.dir_models() == a.dir_models(),
        a.ordered() ==> b.ordered(),
{
    assert(b.file_slots() == a.file_slots());
    assert(b.dir_slots() == a.dir_slots());
    assert(b.file_models() =~= a.file_models());
    assert(b.dir_models() =~= a.dir_models());
    assert(b.file_starts() =~= a.file_starts());
    assert(b.dir_starts() =~= a.dir_starts());
    assert forall|i: int| 0 <= i < b.files.items@.len() implies #[trigger] b.file_ok(i) by {
        assert(a.file_ok(i));
    }
    assert forall|i: int| 0 <= i < b.dirs.items@.len() implies #[trigger] b.dir_ok(i) by {
        assert(a.dir_ok(i));
    }
}

/// Attaching leaves the rows of the base scan where they are; at most a
/// deleted file among them comes back.
proof fn lemma_base_stays(
    before: FileSync,
    after: FileSync,
    snapshot: LayerSnapshot,
    layer: LayerId,
    added: usize,
)
    requires
        before.wf(),
        before.ordered(),
        !before.is_full(),
        snapshot.wf(),
        snapshot.ordered(),
        attach::is_attached(before, after, snapshot, layer, added),
        before.files.items@.len() + snapshot.files@.len() <= before.files.capacity,
        before.dirs.items@.len() + snapshot.dirs@.len() <= before.dirs.capacity,
    ensures
        before.base_count <= before.file_models().len() <= after.file_models().len(),
        forall|i: int|
            0 <= i < before.base_count ==> (#[trigger] after.file_models()[i])
                == before.file_models()[i] || after.file_models()[i] == entries::live_file(
                before.file_models()[i],
            ),
{
    let base = choose|base: FileSync| #[trigger]
        attach::room_made(before, base) && layer == base.layers.layers@.len() + 1
            && attach::layer_attached(base, after, snapshot) && arrange::same_base(base, after)
            && attach::rows_attached(base, after, snapshot);
    let n = before.files.items@.len();
    let first = choose|order: Seq<usize>| #[trigger]
        sorting::is_permutation(order, n) && arrange::moves_within(
            order,
            before.fixed_slots(),
            n as int,
        ) && layer_ops::is_carried(
            before.file_models(),
            base.file_models(),
            before.is_full(),
            order,
        );
    arrange::lemma_span(before, before.layers.layers@.len() - 1);
    let joined = attach::dirs_joined(base, snapshot);
    let top = (base.layers.layers@.len() + 1) as LayerId;
    assert(base.file_models().len() == base.files.items@.len());
    assert(base.dir_models().len() == base.dirs.items@.len());
    assert(before.dir_models().len() == before.dirs.items@.len());
    lemma_dirs_fit(
        DirImport { dirs: base.dir_models(), map: Seq::empty(), stopped: false },
        snapshot.dir_models(),
        snapshot.dirs@.len() as int,
        top,
        base.dirs.capacity as nat,
    );
    let m = FileImport {
        files: base.file_models(),
        dirs: joined.dirs,
        added: 0,
        stopped: false,
    };
    let at = Place {
        map: joined.map,
        layer: top,
        room: base.files.capacity as nat,
        known: base.files.items@.len() as int,
    };
    assert forall|i: int| 0 <= i < snapshot.file_models().len() implies (
    #[trigger] snapshot.file_models()[i]).parent < at.map.len() by {
        assert(snapshot.files@[i].parent_dir_index < snapshot.dirs@.len());
    }
    lemma_files_fit(m, snapshot.file_models(), snapshot.files@.len() as int, at);
    let r = attach::files_joined(base, snapshot);
    let second = choose|order: Seq<usize>| #[trigger]
        sorting::is_permutation(order, r.files.len()) && arrange::moves_within(
            order,
            at.known,
            r.files.len() as int,
        ) && after.file_models() == sorting::permuted(r.files, order);
    assert forall|i: int| 0 <= i < before.base_count implies (#[trigger] after.file_models()[i])
        == before.file_models()[i] || after.file_models()[i] == entries::live_file(
        before.file_models()[i],
    ) by {
        assert(second[i] == i);
        assert(first[i] == i);
        assert(after.file_models()[i] == r.files[i]);
        assert(base.file_models()[i] == before.file_models()[i]);
    }
}

/// How one layer of `from` is carried over.
pub open spec fn carries(
    a: FileSync,
    b: FileSync,
    from: FileSync,
    layer: LayerId,
    s: LayerSnapshot,
) -> bool {
    &&& s.wf()
    &&& export::is_export(from, layer, s)
    &&& if s.files@.len() == 0 && s.label is None {
        b == a
    } else {
        exists|g: FileSync, id: LayerId, added: usize| #[trigger]
            attach::is_attached(g, b, s, id, added) && grown(
                a,
                g,
                s.files@.len() as int,
                s.dirs@.len() as int,
            )
    }
}

/// One step of [`FileSync::adopt_overlays`].
pub open spec fn carries_layer(a: FileSync, b: FileSync, from: FileSync, layer: LayerId) -> bool {
    exists|s: LayerSnapshot| #[trigger] carries(a, b, from, layer, s)
}

/// The explicit layers of `from` are carried over one by one.
pub open spec fn is_adoption(states: Seq<FileSync>, from: FileSync) -> bool {
    &&& states.len() == from.layers.layers@.len()
    &&& forall|k: int|
        1 <= k < states.len() ==> carries_layer(
            states[k - 1],
            #[trigger] states[k],
            from,
            (k + 1) as LayerId,
        )
}

/// What carrying the first `n` layers over has done so far.
pub open spec fn adopted_upto(a: FileSync, b: FileSync, from: FileSync, n: int) -> bool {
    &&& b.ordered()
    &&& labels_of(b) == labels_of(a) + kept_labels(from, n)
    &&& b.base_count == a.base_count
    &&& b.indexable_count == a.indexable_count
    &&& b.base_dirs_count == a.base_dirs_count
    &&& b.chunked_paths == a.chunked_paths
    &&& a.base_count <= a.file_models().len() <= b.file_models().len()
    &&& forall|i: int|
        0 <= i < a.base_count ==> (#[trigger] b.file_models()[i]) == a.file_models()[i]
            || b.file_models()[i] == entries::live_file(a.file_models()[i])
    &&& forall|path: Seq<u8>| #[trigger]
        is_live(b.file_models(), path) <==> is_live(a.file_models(), path) || has_live(
            from.file_models(),
            layer_start(from, 1),
            layer_start(from, n),
            path,
        )
}

proof fn lemma_step_labels(before: FileSync, after: FileSync, s: LayerSnapshot, id: LayerId, added: usize)
    requires
        before.wf(),
        !before.is_full(),
        attach::is_attached(before, after, s, id, added),
    ensures
        labels_of(after) == labels_of(before).push(layers::label_text(s.label)),
        arrange::same_base(before, after),
{
    let base = choose|base: FileSync| #[trigger]
        attach::room_made(before, base) && id == base.layers.layers@.len() + 1
            && attach::layer_attached(base, after, s) && arrange::same_base(base, after);
    let n = before.layers.layers@.len() as int;
    assert forall|i: int| 0 <= i < n implies labels_of(after)[i] == labels_of(before)[i] by {
        assert(after.layers.layers@.take(n)[i] == base.layers.layers@[i]);
        assert(base.layers.layers@[i].label == before.layers.layers@[i].label);
    }
    assert(labels_of(after) =~= labels_of(before).push(layers::label_text(s.label)));
}

proof fn lemma_live_joined(files: Seq<FileModel>, start: int, mid: int, end: int, path: Seq<u8>)
    requires
        start <= mid <= end,
    ensures
        has_live(files, start, end, path) <==> has_live(files, start, mid, path) || has_live(
            files,
            mid,
            end,
            path,
        ),
{
    if has_live(files, start, end, path) {
        let i = choose|i: int| start <= i < end && #[trigger] live_at(files, path, i);
        if i < mid {
            assert(has_live(files, start, mid, path));
        } else {
            assert(has_live(files, mid, end, path));
        }
    }
}

/// A layer that is left out has no live files.
proof fn lemma_step_skipped(a: FileSync, b: FileSync, from: FileSync, n: int, s: LayerSnapshot)
    requires
        from.wf(),
        1 <= n < from.layers.layers@.len(),
        adopted_upto(a, b, from, n),
        export::is_export(from, (n + 1) as LayerId, s),
        s.files@.len() == 0,
        s.label is None,
    ensures
        adopted_upto(a, b, from, n + 1),
{
    arrange::lemma_span(from, n);
    assert(from.file_starts()[1] <= from.file_starts()[n]);
    assert(is_bare(from, n));
    assert forall|path: Seq<u8>| #[trigger]
        is_live(b.file_models(), path) <==> is_live(a.file_models(), path) || has_live(
            from.file_models(),
            layer_start(from, 1),
            layer_start(from, n + 1),
            path,
        ) by {
        lemma_export_lists(from, (n + 1) as LayerId, s, path);
        lemma_live_joined(
            from.file_models(),
            layer_start(from, 1),
            layer_start(from, n),
            layer_start(from, n + 1),
            path,
        );
    }
}

proof fn lemma_step_attached(
    a: FileSync,
    b: FileSync,
    c: FileSync,
    from: FileSync,
    n: int,
    s: LayerSnapshot,
    id: LayerId,
    added: usize,
)
    requires
        from.wf(),
        from.ordered(),
        1 <= n < from.layers.layers@.len(),
        adopted_upto(a, b, from, n),
        b.wf(),
        !b.is_full(),
        s.wf(),
        export::is_export(from, (n + 1) as LayerId, s),
        !(s.files@.len() == 0 && s.label is None),
        attach::is_attached(b, c, s, id, added),
        b.files.items@.len() + s.files@.len() <= b.files.capacity,
        b.dirs.items@.len() + s.dirs@.len() <= b.dirs.capacity,
    ensures
        adopted_upto(a, c, from, n + 1),
{
    law_exports_are_ordered(from, (n + 1) as LayerId, s);
    arrange::lemma_span(from, n);
    assert(from.file_starts()[1] <= from.file_starts()[n]);
    lemma_step_labels(b, c, s, id, added);
    assert(!is_bare(from, n));
    assert(labels_of(c) =~= labels_of(a) + kept_labels(from, n + 1));
    lemma_base_stays(b, c, s, id, added);
    assert forall|i: int| 0 <= i < a.base_count implies (#[trigger] c.file_models()[i])
        == a.file_models()[i] || c.file_models()[i] == entries::live_file(a.file_models()[i]) by {
        assert(b.file_models()[i] == a.file_models()[i] || b.file_models()[i]
            == entries::live_file(a.file_models()[i]));
    }
    assert forall|path: Seq<u8>| #[trigger]
        is_live(c.file_models(), path) <==> is_live(a.file_models(), path) || has_live(
            from.file_models(),
            layer_start(from, 1),
            layer_start(from, n + 1),
            path,
        ) by {
        law_import_adds_every_file(b, c, s, id, added, path);
        assert(is_live(b.file_models(), path) <==> is_live(a.file_models(), path) || has_live(
            from.file_models(),
            layer_start(from, 1),
            layer_start(from, n),
            path,
        ));
        lemma_export_lists(from, (n + 1) as LayerId, s, path);
        lemma_live_joined(
            from.file_models(),
            layer_start(from, 1),
            layer_start(from, n),
            layer_start(from, n + 1),
            path,
        );
    }
}

impl FileSync {
    /// Makes room for more rows; `true` when a table had to grow.
    pub fn ensure_capacity(&mut self, files_extra: usize, dirs_extra: usize) -> (grew: bool)
        requires
            old(self).wf(),
            old(self).files.items@.len() + files_extra + MAX_OVERFLOW_FILES <= usize::MAX,
            old(self).dirs.items@.len() + dirs_extra + MAX_OVERFLOW_FILES <= usize::MAX,
        ensures
            final(self).wf(),
            grown(*old(self), *final(self), files_extra as int, dirs_extra as int),
            final(self).file_models() == old(self).file_models(),
            final(self).dir_models() == old(self).dir_models(),
            old(self).ordered() ==> final(self).ordered(),
            grew <==> old(self).files.items@.len() + files_extra > old(self).files.capacity || old(self).dirs.items@.len() + dirs_extra > old(self).dirs.capacity,
    {
        let ghost before = *self;
        let mut grew: bool = false;
        if self.files.len() + files_extra > self.files.capacity() {
            self.files.reallocate_with_reserve(files_extra + MAX_OVERFLOW_FILES);
            grew = true;
        }
        if self.dirs.len() + dirs_extra > self.dirs.capacity() {
            self.dirs.reallocate_with_reserve(dirs_extra + MAX_OVERFLOW_FILES);
            grew = true;
        }
        proof {
            lemma_grown(before, *self, files_extra as int, dirs_extra as int);
        }
        grew
    }

    /// The exports of the explicit layers of `from` fit next to this index.
    pub open spec fn can_adopt(&self, from: FileSync) -> bool {
        &&& self.files.items@.len() + from.files.items@.len() + MAX_OVERFLOW_FILES <= u32::MAX
        &&& self.dirs.items@.len() + 3 * from.dirs.items@.len() + MAX_OVERFLOW_FILES <= u32::MAX
        &&& forall|id: LayerId| #[trigger] from.can_export(id)
    }

    /// Copies every explicit overlay of `from` onto this index. The session
    /// layer is left behind: a rescan re-discovers its files.
    pub fn adopt_overlays(&mut self, from: &FileSync)
        requires
            old(self).wf(),
            from.wf(),
            old(self).layers.layers@.len() == 1,
            old(self).can_adopt(*from),
        ensures
            final(self).wf(),
            exists|states: Seq<FileSync>| #[trigger]
                is_adoption(states, *from) && states[0] == *old(self) && states.last() == *final(self),
            old(self).ordered() && from.ordered() ==> adopted_upto(
                *old(self),
                *final(self),
                *from,
                from.layers.layers@.len() as int,
            ),
    {
        let ghost a = *self;
        let ghost n = from.layers.layers@.len() as int;
        let ghost mut states: Seq<FileSync> = seq![a];
        let top: LayerId = from.layers.top_id();
        let mut id: LayerId = SESSION_LAYER + 1;
        proof {
            lemma_adopt_start(a, *from);
        }
        while id <= top
            invariant
                self.wf(),
                a.can_adopt(*from),
                from.wf(),
                n == from.layers.layers@.len() == top,
                2 <= id <= top + 1,
                states.len() == id - 1,
                states[0] == a,
                states.last() == *self,
                forall|k: int|
                    1 <= k < states.len() ==> carries_layer(
                        states[k - 1],
                        #[trigger] states[k],
                        *from,
                        (k + 1) as LayerId,
                    ),
                1 <= self.layers.layers@.len() < id,
                self.files.items@.len() <= a.files.items@.len() + layer_start(*from, id - 1),
                self.dirs.items@.len() <= a.dirs.items@.len() + (id - 2) * from.dirs.items@.len(),
                a.ordered() && from.ordered() ==> adopted_upto(a, *self, *from, id - 1),
            decreases top + 1 - id,
        {
            let ghost held = *self;
            let ghost l = id - 1;
            proof {
                assert(from.can_export(id));
                arrange::lemma_span(*from, l);
                assert((id - 1) * from.dirs.items@.len() == (id - 2) * from.dirs.items@.len()
                    + from.dirs.items@.len()) by (nonlinear_arith);
                assert((id - 1) * from.dirs.items@.len() <= 3 * from.dirs.items@.len())
                    by (nonlinear_arith)
                    requires
                        0 <= id - 1 <= 3,
                ;
            }
            match from.export_layer(id) {
                None => {},
                Some(snapshot) => {
                    proof {
                        lemma_export_sizes(*from, id, snapshot);
                    }
                    let ghost s = snapshot;
                    let bare: bool = snapshot.files.len() == 0 && snapshot.label.is_none();
                    if !bare {
                        let _ = self.ensure_capacity(snapshot.files.len(), snapshot.dirs.len());
                        let ghost g = *self;
                        let (layer, added) = self.append_snapshot(snapshot);
                        proof {
                            assert(carries(held, *self, *from, id, s));
                            lemma_step_count(g, *self, s, layer, added);
                            if a.ordered() && from.ordered() {
                                lemma_grown_adopted(a, held, g, *from, l, s);
                                lemma_step_attached(
                                    a,
                                    g,
                                    *self,
                                    *from,
                                    l,
                                    s,
                                    layer,
                                    added,
                                );
                            }
                        }
                    } else {
                        proof {
                            assert(carries(held, *self, *from, id, s));
                            if a.ordered() && from.ordered() {
                                lemma_step_skipped(a, *self, *from, l, s);
                            }
                        }
                    }
                },
            }
            proof {
                states = states.push(*self);
            }
            id += 1;
        }
        proof {
            assert(is_adoption(states, *from));
        }
    }
}

proof fn lemma_adopt_start(a: FileSync, from: FileSync)
    requires
        a.wf(),
        from.wf(),
    ensures
        a.ordered() ==> adopted_upto(a, a, from, 1),
        0 <= layer_start(from, 1),
{
    arrange::lemma_span(a, 0);
    assert(labels_of(a) =~= labels_of(a) + kept_labels(from, 1));
    assert forall|path: Seq<u8>| !#[trigger]
        has_live(from.file_models(), layer_start(from, 1), layer_start(from, 1), path) by {}
}

proof fn lemma_step_count(before: FileSync, after: FileSync, s: LayerSnapshot, id: LayerId, added: usize)
    requires
        !before.is_full(),
        attach::is_attached(before, after, s, id, added),
    ensures
        after.layers.layers@.len() == before.layers.layers@.len() + 1,
{
}

/// Room for what comes, and everything else as it was.
proof fn lemma_grown_adopted(
    a: FileSync,
    b: FileSync,
    g: FileSync,
    from: FileSync,
    n: int,
    s: LayerSnapshot,
)
    requires
        b.wf(),
        adopted_upto(a, b, from, n),
        grown(b, g, s.files@.len() as int, s.dirs@.len() as int),
    ensures
        adopted_upto(a, g, from, n),
        g.files.items@.len() + s.files@.len() <= g.files.capacity,
        g.dirs.items@.len() + s.dirs@.len() <= g.dirs.capacity,
{
    lemma_grown(b, g, s.files@.len() as int, s.dirs@.len() as int);
    assert(labels_of(g) =~= labels_of(b));
}

/// An export has no more rows than its layer has files and the table has
/// directories.
proof fn lemma_export_sizes(sync: FileSync, layer: LayerId, s: LayerSnapshot)
    requires
        sync.wf(),
        sync.layers.has_id(layer),
        export::is_export(sync, layer, s),
    ensures
        layer_start(sync, layer - 1) + s.files@.len() <= layer_start(sync, layer as int),
        s.dirs@.len() <= sync.dirs.items@.len(),
{
    let (start, end) = sync.layers.file_span(layer - 1, sync.files.items@.len() as int);
    arrange::lemma_span(sync, layer - 1);
    export::lemma_live_slots(sync.file_models(), start, end);
    let globals = choose|globals: Seq<u32>| #[trigger]
        export::exported_dirs(sync, layer, s, globals);
    export::lemma_distinct_bound(globals, sync.dirs.items@.len());
}

} // verus!
