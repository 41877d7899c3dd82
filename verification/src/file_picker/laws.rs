//! What adding entries does to the index as a whole.

use crate::bytes;
use crate::file_picker::adopt;
use crate::file_picker::arrange;
use crate::file_picker::entries;
use crate::file_picker::entries::{Outcome, TableModel};
use crate::file_picker::layer_ops;
use crate::file_picker::picker;
use crate::file_picker::picker::FilePicker;
use crate::file_picker::sync::{FileModel, FileSync};
use crate::index::layers::{LayerId, MAX_OVERLAY_LAYERS};
use crate::index::path_index::SlotPaths;
use crate::index::snapshot::IndexEntry;
use crate::sorting;
use vstd::prelude::*;

verus! {

/// Entry `i` names this path.
pub open spec fn names_path(entries: Seq<IndexEntry<'_>>, i: int, path: Seq<u8>) -> bool {
    entries[i].record() is Some && entries[i].record()->0.path == path
}

/// One of the first `n` entries names this path.
pub open spec fn listed(entries: Seq<IndexEntry<'_>>, n: int, path: Seq<u8>) -> bool {
    exists|i: int| 0 <= i < n && #[trigger] names_path(entries, i, path)
}

/// No two rows have one path.
pub open spec fn paths_differ(files: Seq<FileModel>) -> bool {
    forall|i: int, j: int|
        0 <= i < j < files.len() ==> (#[trigger] files[i]).path != (#[trigger] files[j]).path
}

/// Every file lies in a directory of the table.
spec fn has_parents(m: TableModel) -> bool {
    forall|k: int| 0 <= k < m.files.len() ==> (#[trigger] m.files[k]).parent < m.dirs.len()
}

proof fn lemma_listed_step(entries: Seq<IndexEntry<'_>>, n: int, path: Seq<u8>)
    requires
        0 < n,
    ensures
        listed(entries, n, path) <==> listed(entries, n - 1, path) || names_path(
            entries,
            n - 1,
            path,
        ),
{
    if listed(entries, n, path) {
        let i = choose|i: int| 0 <= i < n && #[trigger] names_path(entries, i, path);
        if i < n - 1 {
            assert(listed(entries, n - 1, path));
        }
    }
    if listed(entries, n - 1, path) {
        let i = choose|i: int| 0 <= i < n - 1 && #[trigger] names_path(entries, i, path);
        assert(0 <= i < n && names_path(entries, i, path));
    }
}

/// One entry makes its path live and leaves all others as they were.
proof fn lemma_entry_joins(
    m: TableModel,
    entries: Seq<IndexEntry<'_>>,
    i: int,
    layer: LayerId,
    file_room: nat,
    dir_room: nat,
    path: Seq<u8>,
)
    requires
        !m.stopped,
        m.files.len() < file_room,
        m.dirs.len() < dir_room,
        m.dirs.len() < u32::MAX,
        has_parents(m),
    ensures
        ({
            let r = entries::add_entry(m, entries[i].record(), layer, file_room, dir_room);
            &&& !r.stopped
            &&& has_parents(r)
            &&& r.files.len() <= m.files.len() + 1
            &&& r.dirs.len() <= m.dirs.len() + 1
            &&& adopt::is_live(r.files, path) <==> adopt::is_live(m.files, path) || names_path(
                entries,
                i,
                path,
            )
        }),
{
    let record = entries[i].record();
    let r = entries::add_entry(m, record, layer, file_room, dir_room);
    if let Some(e) = record {
        match entries::find_file(m.files, e.path) {
            None => {
                let k = m.files.len() as int;
                assert(r.files.take(k) =~= m.files);
                let dir = e.path.take(bytes::after_last_slash(e.path));
                if let Some(d) = entries::find_dir(m.dirs, dir) {
                    assert(entries::dir_at(m.dirs, dir, d));
                }
                assert forall|j: int| 0 <= j < r.files.len() implies (#[trigger] r.files[j]).parent
                    < r.dirs.len() by {
                    if j < k {
                        assert(r.files[j] == m.files[j]);
                    }
                }
                lemma_pushed(m.files, r.files, path);
            },
            Some(k) => {
                assert(entries::file_at(m.files, e.path, k));
                assert(adopt::live_at(r.files, e.path, k));
                lemma_updated(m.files, r.files, k, path);
            },
        }
    }
}

/// A row behind the others.
proof fn lemma_pushed(a: Seq<FileModel>, b: Seq<FileModel>, path: Seq<u8>)
    requires
        b.len() == a.len() + 1,
        b.take(a.len() as int) == a,
        !b.last().deleted,
    ensures
        adopt::is_live(b, path) <==> adopt::is_live(a, path) || path == b.last().path,
{
    let n = a.len() as int;
    assert forall|k: int| 0 <= k < n implies #[trigger] b[k] == a[k] by {
        assert(b.take(n)[k] == b[k]);
    }
    if adopt::is_live(a, path) {
        let k = choose|k: int| 0 <= k < a.len() && #[trigger] adopt::live_at(a, path, k);
        assert(adopt::live_at(b, path, k));
    }
    if path == b.last().path {
        assert(adopt::live_at(b, path, n));
    }
    if adopt::is_live(b, path) {
        let k = choose|k: int| 0 <= k < b.len() && #[trigger] adopt::live_at(b, path, k);
        if k < n {
            assert(adopt::live_at(a, path, k));
        }
    }
}

/// A row brought to life, or one that was alive.
proof fn lemma_updated(a: Seq<FileModel>, b: Seq<FileModel>, i: int, path: Seq<u8>)
    requires
        0 <= i < a.len(),
        b.len() == a.len(),
        b[i].path == a[i].path,
        !b[i].deleted,
        forall|k: int| 0 <= k < a.len() && k != i ==> #[trigger] b[k] == a[k],
    ensures
        adopt::is_live(b, path) <==> adopt::is_live(a, path) || path == a[i].path,
{
    if adopt::is_live(a, path) {
        let k = choose|k: int| 0 <= k < a.len() && #[trigger] adopt::live_at(a, path, k);
        assert(adopt::live_at(b, path, k));
    }
    if path == a[i].path {
        assert(adopt::live_at(b, path, i));
    }
    if adopt::is_live(b, path) {
        let k = choose|k: int| 0 <= k < b.len() && #[trigger] adopt::live_at(b, path, k);
        if k != i {
            assert(adopt::live_at(a, path, k));
        }
    }
}

proof fn lemma_entries_join(
    m: TableModel,
    entries: Seq<IndexEntry<'_>>,
    n: int,
    layer: LayerId,
    file_room: nat,
    dir_room: nat,
    path: Seq<u8>,
)
    requires
        !m.stopped,
        0 <= n,
        m.files.len() + n <= file_room,
        m.dirs.len() + n <= dir_room,
        m.dirs.len() + n <= u32::MAX,
        has_parents(m),
    ensures
        ({
            let r = entries::add_upto(m, entries, n, layer, file_room, dir_room);
            &&& !r.stopped
            &&& has_parents(r)
            &&& r.files.len() <= m.files.len() + n
            &&& r.dirs.len() <= m.dirs.len() + n
            &&& adopt::is_live(r.files, path) <==> adopt::is_live(m.files, path) || listed(
                entries,
                n,
                path,
            )
        }),
    decreases n,
{
    if n > 0 {
        lemma_entries_join(m, entries, n - 1, layer, file_room, dir_room, path);
        let p = entries::add_upto(m, entries, n - 1, layer, file_room, dir_room);
        lemma_entry_joins(p, entries, n - 1, layer, file_room, dir_room, path);
        lemma_listed_step(entries, n, path);
    }
}

/// Entries that are all live change nothing.
proof fn lemma_nothing_new(
    m: TableModel,
    entries: Seq<IndexEntry<'_>>,
    n: int,
    layer: LayerId,
    file_room: nat,
    dir_room: nat,
)
    requires
        !m.stopped,
        0 <= n,
        paths_differ(m.files),
        forall|path: Seq<u8>| #[trigger] listed(entries, n, path) ==> adopt::is_live(m.files, path),
    ensures
        entries::add_upto(m, entries, n, layer, file_room, dir_room) == m,
    decreases n,
{
    if n > 0 {
        assert forall|path: Seq<u8>| #[trigger] listed(entries, n - 1, path) implies adopt::is_live(
            m.files,
            path,
        ) by {
            lemma_listed_step(entries, n, path);
            assert(listed(entries, n, path));
        }
        lemma_nothing_new(m, entries, n - 1, layer, file_room, dir_room);
        if let Some(e) = entries[n - 1].record() {
            assert(names_path(entries, n - 1, e.path));
            assert(listed(entries, n, e.path));
            let k = choose|k: int|
                0 <= k < m.files.len() && #[trigger] adopt::live_at(m.files, e.path, k);
            assert(entries::file_at(m.files, e.path, k));
            let i = entries::find_file(m.files, e.path)->0;
            assert(entries::file_at(m.files, e.path, i));
            if i < k {
                assert(m.files[i].path != m.files[k].path);
            } else if k < i {
                assert(m.files[k].path != m.files[i].path);
            }
        }
    }
}

/// Opening a layer keeps what is live, and keeps paths apart.
proof fn lemma_open_top(before: FileSync, open: FileSync, path: Seq<u8>)
    requires
        before.wf(),
        entries::has_open_top(before, open),
    ensures
        open.file_models().len() == before.file_models().len(),
        open.dir_models().len() == before.dir_models().len(),
        adopt::is_live(open.file_models(), path) <==> adopt::is_live(before.file_models(), path),
        paths_differ(before.file_models()) ==> paths_differ(open.file_models()),
{
    if !(before.layers.layers@.last().store is Open) {
        let n = before.files.items@.len();
        assert(before.file_models().len() == n);
        assert(before.dir_models().len() == before.dirs.items@.len());
        assert(open.dir_models().len() == open.dirs.items@.len());
        let order = choose|order: Seq<usize>| #[trigger]
            sorting::is_permutation(order, n) && arrange::moves_within(
                order,
                before.fixed_slots(),
                n as int,
            ) && layer_ops::is_carried(
                before.file_models(),
                open.file_models(),
                before.is_full(),
                order,
            );
        adopt::lemma_live_moved(before.file_models(), open.file_models(), order, path);
        if paths_differ(before.file_models()) {
            let fa = before.file_models();
            let fb = open.file_models();
            assert forall|i: int, j: int| 0 <= i < j < fb.len() implies (#[trigger] fb[i]).path != (
            #[trigger] fb[j]).path by {
                let x = order[i] as int;
                let y = order[j] as int;
                assert(order[i] != order[j]);
                if x < y {
                    assert(fa[x].path != fa[y].path);
                } else {
                    assert(fa[y].path != fa[x].path);
                }
            }
        }
    }
}

/// One entry that has room makes its path live and leaves all others as they
/// were, in tables of any order.
proof fn lemma_joined(
    a: FileSync,
    b: FileSync,
    entries: Seq<IndexEntry<'_>>,
    i: int,
    r: Outcome,
    path: Seq<u8>,
)
    requires
        entries::entry_joined(a, b, entries[i].record(), r),
        a.file_models().len() < a.files.capacity,
        a.dir_models().len() < a.dirs.capacity,
    ensures
        r != Outcome::Full,
        b.files.capacity == a.files.capacity,
        b.dirs.capacity == a.dirs.capacity,
        b.file_models().len() <= a.file_models().len() + 1,
        b.dir_models().len() <= a.dir_models().len() + 1,
        adopt::is_live(b.file_models(), path) <==> adopt::is_live(a.file_models(), path)
            || names_path(entries, i, path),
{
    match entries[i].record() {
        None => {
            assert(b.file_models() =~= a.file_models());
        },
        Some(e) => {
            let found = choose|found: Option<int>| #[trigger]
                entries::joined_at(a, b, e, r, found);
            let m = a.tables(0, false);
            match found {
                Some(k) => {
                    assert(entries::bring_back(m, k) == b.tables(0 + r.count(), false));
                    assert(a.file_models()[k].path == e.path);
                    lemma_updated(a.file_models(), b.file_models(), k, path);
                },
                None => {
                    let dir = choose|dir: Option<int>| #[trigger]
                        entries::fresh_in(a, b, e, r, dir);
                    assert(entries::add_fresh_in(
                        m,
                        e,
                        a.top_layer(),
                        a.files.capacity as nat,
                        a.dirs.capacity as nat,
                        dir,
                    ) == b.tables(0 + r.count(), r == Outcome::Full));
                    let n = a.file_models().len() as int;
                    assert(b.file_models().take(n) =~= a.file_models());
                    lemma_pushed(a.file_models(), b.file_models(), path);
                },
            }
        },
    }
}

proof fn lemma_chain_joins(
    states: Seq<FileSync>,
    outcomes: Seq<Outcome>,
    entries: Seq<IndexEntry<'_>>,
    n: int,
    path: Seq<u8>,
)
    requires
        entries::is_entry_chain(states, outcomes, entries),
        0 <= n <= outcomes.len(),
        states[0].file_models().len() + entries.len() <= states[0].files.capacity,
        states[0].dir_models().len() + entries.len() <= states[0].dirs.capacity,
    ensures
        n > 0 ==> outcomes[n - 1] != Outcome::Full,
        states[n].files.capacity == states[0].files.capacity,
        states[n].dirs.capacity == states[0].dirs.capacity,
        states[n].file_models().len() <= states[0].file_models().len() + n,
        states[n].dir_models().len() <= states[0].dir_models().len() + n,
        adopt::is_live(states[n].file_models(), path) <==> adopt::is_live(
            states[0].file_models(),
            path,
        ) || listed(entries, n, path),
    decreases n,
{
    if n > 0 {
        lemma_chain_joins(states, outcomes, entries, n - 1, path);
        assert(entries::entry_joined(
            states[n - 1],
            states[n],
            entries[n - 1].record(),
            outcomes[n - 1],
        ));
        lemma_joined(states[n - 1], states[n], entries, n - 1, outcomes[n - 1], path);
        lemma_listed_step(entries, n, path);
    }
}

/// Adding entries to an index with room for them makes each of them live, keeps
/// what was live, and adds nothing else.
pub proof fn law_entries_join_the_index(
    before: FileSync,
    after: FileSync,
    entries: Seq<IndexEntry<'_>>,
    added: usize,
    path: Seq<u8>,
)
    requires
        before.wf(),
        entries::is_joined(before, after, entries, added),
        before.files.items@.len() + entries.len() <= before.files.capacity,
        before.dirs.items@.len() + entries.len() <= before.dirs.capacity,
    ensures
        adopt::is_live(after.file_models(), path) <==> adopt::is_live(before.file_models(), path)
            || listed(entries, entries.len() as int, path),
{
    let (states, outcomes) = choose|states: Seq<FileSync>, outcomes: Seq<Outcome>| #[trigger]
        entries::is_entry_chain(states, outcomes, entries) && entries::has_open_top(
            before,
            states[0],
        ) && states.last() == after && added == entries::count_added(
            outcomes,
            outcomes.len() as int,
        );
    lemma_open_top(before, states[0], path);
    assert(before.file_models().len() == before.files.items@.len());
    assert(before.dir_models().len() == before.dirs.items@.len());
    lemma_chain_joins(states, outcomes, entries, outcomes.len() as int, path);
    assert(outcomes.len() == entries.len());
}

/// A file of the writable layer that was deleted comes back in its own row when
/// its path is added again: nothing is appended.
pub proof fn law_deleted_entries_come_back(
    before: FileSync,
    after: FileSync,
    entry: IndexEntry<'_>,
    added: usize,
    i: int,
)
    requires
        before.wf(),
        after.wf(),
        before.layers.layers@.last().store is Open,
        !before.layers.layers@.last().sorted,
        entries::is_joined(before, after, seq![entry], added),
        0 <= i < before.file_models().len(),
        entry.record() is Some,
        before.file_models()[i].path == entry.record()->0.path,
        before.file_models()[i].deleted,
        before.file_models()[i].layer == before.top_layer(),
        forall|k: int|
            0 <= k < before.file_models().len() && k != i ==> (
            #[trigger] before.file_models()[k]).path != before.file_models()[i].path,
    ensures
        added == 1,
        after.file_models() == before.file_models().update(
            i,
            entries::live_file(before.file_models()[i]),
        ),
        after.live_count == before.live_count + 1,
        after.layers.layers@.len() == before.layers.layers@.len(),
        after.file_starts() == before.file_starts(),
{
    let entries = seq![entry];
    let (states, outcomes) = choose|states: Seq<FileSync>, outcomes: Seq<Outcome>| #[trigger]
        entries::is_entry_chain(states, outcomes, entries) && entries::has_open_top(
            before,
            states[0],
        ) && states.last() == after && added == entries::count_added(
            outcomes,
            outcomes.len() as int,
        );
    let files = before.file_models();
    let n = files.len() as int;
    let e = entry.record()->0;
    let r = outcomes[0];
    assert(outcomes.len() == 1);
    assert(states[0] == before && states[1] == after);
    assert(entries::entry_joined(before, after, entries[0].record(), r));
    let found = choose|found: Option<int>| #[trigger]
        entries::joined_at(before, after, e, r, found);
    let top = before.layers.layers@.len() - 1;
    if found is None {
        assert(before.file_ok(i));
        arrange::lemma_span(before, top);
        assert(before.file_slots().path_at(i) == e.path);
        assert(before.layer_holds(top, n, e.path));
    }
    assert(found == Some(i)) by {
        let k = found->0;
        assert(files[k].path == e.path);
    }
    let m = before.tables(0, false);
    assert(entries::bring_back(m, i) == after.tables(0 + r.count(), false));
    reveal_with_fuel(entries::count_added, 2);
    entries::lemma_live_update(files, i, n);
    assert(before.files.items@.len() == n);
    assert(after.file_models().len() == after.files.items@.len());
    assert(after.file_starts() =~= before.file_starts()) by {
        assert forall|l: int| 0 <= l < before.file_starts().len() implies after.file_starts()[l]
            == before.file_starts()[l] by {
            if l < top {
                assert(after.layers.layers@[l] == before.layers.layers@[l]);
            }
        }
    }
}

/// Whatever room a picker had, adding entries makes each of them live, keeps
/// what was live, and adds nothing else.
pub proof fn law_added_entries_are_live(
    before: FilePicker,
    after: FilePicker,
    entries: Seq<IndexEntry<'_>>,
    added: usize,
    path: Seq<u8>,
)
    requires
        before.wf(),
        picker::entries_joined(before.sync_data, after.sync_data, entries, added),
    ensures
        adopt::is_live(after.sync_data.file_models(), path) <==> adopt::is_live(
            before.sync_data.file_models(),
            path,
        ) || listed(entries, entries.len() as int, path),
{
    let n = entries.len() as int;
    let g = choose|g: FileSync| #[trigger]
        entries::is_joined(g, after.sync_data, entries, added) && adopt::grown(
            before.sync_data,
            g,
            n,
            n,
        );
    adopt::lemma_grown(before.sync_data, g, n, n);
    law_entries_join_the_index(g, after.sync_data, entries, added, path);
}

/// A file that was added to the writable layer of a picker and deleted comes
/// back in its own row when its path is added again: one file more is live, and
/// no layer has a row more.
pub proof fn law_deleted_files_come_back(
    before: FilePicker,
    after: FilePicker,
    entry: IndexEntry<'_>,
    added: usize,
    i: int,
)
    requires
        before.wf(),
        after.wf(),
        before.sync_data.layers.layers@.last().store is Open,
        !before.sync_data.layers.layers@.last().sorted,
        picker::entries_joined(before.sync_data, after.sync_data, seq![entry], added),
        0 <= i < before.sync_data.file_models().len(),
        entry.record() is Some,
        before.sync_data.file_models()[i].path == entry.record()->0.path,
        before.sync_data.file_models()[i].deleted,
        before.sync_data.file_models()[i].layer == before.sync_data.top_layer(),
        paths_differ(before.sync_data.file_models()),
    ensures
        added == 1,
        after.sync_data.file_models() == before.sync_data.file_models().update(
            i,
            entries::live_file(before.sync_data.file_models()[i]),
        ),
        after.sync_data.live_count == before.sync_data.live_count + 1,
        after.sync_data.layers.layers@.len() == before.sync_data.layers.layers@.len(),
        after.sync_data.file_starts() == before.sync_data.file_starts(),
{
    let a = before.sync_data;
    let g = choose|g: FileSync| #[trigger]
        entries::is_joined(g, after.sync_data, seq![entry], added) && adopt::grown(a, g, 1, 1);
    adopt::lemma_grown(a, g, 1, 1);
    assert forall|k: int| 0 <= k < g.file_models().len() && k != i implies (
    #[trigger] g.file_models()[k]).path != g.file_models()[i].path by {
        if k < i {
            assert(a.file_models()[k].path != a.file_models()[i].path);
        } else {
            assert(a.file_models()[i].path != a.file_models()[k].path);
        }
    }
    law_deleted_entries_come_back(g, after.sync_data, entry, added, i);
    assert(g.file_starts() =~= a.file_starts());
}

/// Some live file of a layer has this path.
pub open spec fn is_live_in(files: Seq<FileModel>, layer: LayerId, path: Seq<u8>) -> bool {
    exists|i: int| #[trigger] adopt::live_at(files, path, i) && files[i].layer == layer
}

/// A new layer takes the next id, up to the last there is; it alone is open,
/// and it is empty. What is live stays live, and so does what is live in the
/// session layer.
pub proof fn law_new_layers_keep_what_is_live(
    before: FileSync,
    after: FileSync,
    label: Option<&str>,
    path: Seq<u8>,
)
    requires
        before.wf(),
        after.wf(),
        layer_ops::carried(before, after, before.is_full(), before.fixed_slots()),
        layer_ops::opened_as(after, label),
        after.layers.layers@.len() == (if before.is_full() {
            MAX_OVERLAY_LAYERS as nat
        } else {
            before.layers.layers@.len() + 1
        }),
    ensures
        after.layers.layers@.len() <= MAX_OVERLAY_LAYERS,
        before.layers.layers@.len() < MAX_OVERLAY_LAYERS ==> after.layers.layers@.len()
            == before.layers.layers@.len() + 1,
        forall|l: int|
            0 <= l < after.layers.layers@.len() ==> ((
            #[trigger] after.layers.layers@[l]).store is Open <==> l == after.layers.layers@.len()
                - 1),
        after.layers.file_span(
            after.layers.layers@.len() - 1,
            after.files.items@.len() as int,
        ) == (after.files.items@.len() as int, after.files.items@.len() as int),
        label is None ==> after.layers.layers@.last().label is None,
        label matches Some(text) ==> after.layers.layers@.last().label is Some
            && after.layers.layers@.last().label->0@ == text@,
        adopt::is_live(after.file_models(), path) <==> adopt::is_live(before.file_models(), path),
        is_live_in(after.file_models(), 1, path) <==> is_live_in(before.file_models(), 1, path),
{
    let n = before.files.items@.len();
    let fa = before.file_models();
    let fb = after.file_models();
    assert(fa.len() == n);
    let order = choose|order: Seq<usize>| #[trigger]
        sorting::is_permutation(order, n) && arrange::moves_within(
            order,
            before.fixed_slots(),
            n as int,
        ) && layer_ops::is_carried(fa, fb, before.is_full(), order);
    adopt::lemma_live_moved(fa, fb, order, path);
    if is_live_in(fb, 1, path) {
        let i = choose|i: int| #[trigger] adopt::live_at(fb, path, i) && fb[i].layer == 1;
        assert(fb[i] == layer_ops::carried_file(fa[order[i] as int], before.is_full()));
        assert(adopt::live_at(fa, path, order[i] as int));
    }
    if is_live_in(fa, 1, path) {
        let k = choose|k: int| #[trigger] adopt::live_at(fa, path, k) && fa[k].layer == 1;
        sorting::lemma_permutation_covers(order, n, k as usize);
        let i = choose|i: int| 0 <= i < order.len() && order[i] == k as usize;
        assert(fb[i] == layer_ops::carried_file(fa[order[i] as int], before.is_full()));
        assert(adopt::live_at(fb, path, i));
    }
}

/// What [`law_entries_join_the_index`] says, of tables that are known to be in
/// order.
proof fn lemma_entries_join_in_order(
    before: FileSync,
    after: FileSync,
    entries: Seq<IndexEntry<'_>>,
    added: usize,
    path: Seq<u8>,
)
    requires
        before.wf(),
        entries::is_extended(before, after, entries, added),
        before.files.items@.len() + entries.len() <= before.files.capacity,
        before.dirs.items@.len() + entries.len() <= before.dirs.capacity,
        before.dirs.items@.len() + entries.len() <= u32::MAX,
    ensures
        adopt::is_live(after.file_models(), path) <==> adopt::is_live(before.file_models(), path)
            || listed(entries, entries.len() as int, path),
{
    let open = choose|open: FileSync| #[trigger]
        entries::has_open_top(before, open) && ({
            let m = entries::add_upto(
                open.tables(0, false),
                entries,
                entries.len() as int,
                open.top_layer(),
                before.files.capacity as nat,
                before.dirs.capacity as nat,
            );
            &&& after.ordered()
            &&& after.layers.layers@.len() == open.layers.layers@.len()
            &&& after.file_models() == m.files
            &&& after.dir_models() == m.dirs
            &&& added == m.added
        });
    lemma_open_top(before, open, path);
    assert(before.file_models().len() == before.files.items@.len());
    assert(before.dir_models().len() == before.dirs.items@.len());
    let m = open.tables(0, false);
    assert forall|k: int| 0 <= k < m.files.len() implies (#[trigger] m.files[k]).parent
        < m.dirs.len() by {
        assert(open.file_ok(k));
    }
    lemma_entries_join(
        m,
        entries,
        entries.len() as int,
        open.top_layer(),
        before.files.capacity as nat,
        before.dirs.capacity as nat,
        path,
    );
}

/// Entries that are in the index already are skipped: adding them again adds
/// nothing.
pub proof fn law_adding_again_adds_nothing(
    before: FileSync,
    after: FileSync,
    again: FileSync,
    entries: Seq<IndexEntry<'_>>,
    added: usize,
    added_again: usize,
)
    requires
        before.wf(),
        after.wf(),
        entries::is_extended(before, after, entries, added),
        entries::is_extended(after, again, entries, added_again),
        before.files.items@.len() + entries.len() <= before.files.capacity,
        before.dirs.items@.len() + entries.len() <= before.dirs.capacity,
        before.dirs.items@.len() + entries.len() <= u32::MAX,
    ensures
        added_again == 0,
        forall|path: Seq<u8>|
            adopt::is_live(again.file_models(), path) <==> #[trigger] adopt::is_live(
                after.file_models(),
                path,
            ),
{
    let n = entries.len() as int;
    let open = choose|open: FileSync| #[trigger]
        entries::has_open_top(after, open) && ({
            let m = entries::add_upto(
                open.tables(0, false),
                entries,
                n,
                open.top_layer(),
                after.files.capacity as nat,
                after.dirs.capacity as nat,
            );
            &&& again.ordered()
            &&& again.layers.layers@.len() == open.layers.layers@.len()
            &&& again.file_models() == m.files
            &&& again.dir_models() == m.dirs
            &&& added_again == m.added
        });
    assert(paths_differ(after.file_models()));
    lemma_open_top(after, open, Seq::empty());
    let m = open.tables(0, false);
    assert forall|path: Seq<u8>| #[trigger] listed(entries, n, path) implies adopt::is_live(
        m.files,
        path,
    ) by {
        lemma_entries_join_in_order(before, after, entries, added, path);
        lemma_open_top(after, open, path);
    }
    lemma_nothing_new(
        m,
        entries,
        n,
        open.top_layer(),
        after.files.capacity as nat,
        after.dirs.capacity as nat,
    );
    assert forall|path: Seq<u8>|
        adopt::is_live(again.file_models(), path) <==> #[trigger] adopt::is_live(
            after.file_models(),
            path,
        ) by {
        lemma_open_top(after, open, path);
    }
}

} // verus!
