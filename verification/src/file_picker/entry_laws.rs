//! What becomes of the files that are added to an index.

use crate::bytes;
use crate::file_picker::adopt;
use crate::file_picker::arrange;
use crate::file_picker::entries;
use crate::file_picker::entries::Outcome;
use crate::file_picker::layer_ops;
use crate::file_picker::picker;
use crate::file_picker::picker::FilePicker;
use crate::file_picker::sync::{DirModel, FileModel, FileSync};
use crate::index::layers::LayerId;
use crate::index::snapshot;
use crate::index::snapshot::IndexEntry;
use crate::sorting;
use vstd::prelude::*;

verus! {

/// The path ends in this name, and what is in front of it is its directory.
pub open spec fn is_split(path: Seq<u8>, dir: Seq<u8>, name: Seq<u8>) -> bool {
    &&& path == dir + name
    &&& dir.len() == 0 || dir.last() == 0x2f
    &&& forall|i: int| 0 <= i < name.len() ==> (#[trigger] name[i]) != 0x2f
}

/// The row is new, and says of its file what the entry does.
pub open spec fn is_of_entry(
    f: FileModel,
    dirs: Seq<DirModel>,
    entry: IndexEntry<'_>,
    layer: LayerId,
) -> bool {
    &&& snapshot::normalized(vstd::utf8::encode_utf8(entry.relative_path@)) == Some(f.path)
    &&& f.size == entry.size
    &&& f.modified == entry.modified
    &&& entry.binary matches Some(binary) ==> f.binary == binary
    &&& !f.deleted
    &&& f.layer == layer
    &&& f.access_frecency == 0
    &&& f.modification_frecency == 0
    &&& f.git_recency == 0
    &&& !f.git_modified
    &&& f.filename_offset <= f.path.len()
    &&& is_split(
        f.path,
        f.path.take(f.filename_offset as int),
        f.path.skip(f.filename_offset as int),
    )
    &&& f.parent < dirs.len()
    &&& dirs[f.parent as int].path == f.path.take(f.filename_offset as int)
}

/// The row is that of the directory in front of the name of the entry's file,
/// which is new in this layer.
pub open spec fn is_dir_of_entry(d: DirModel, entry: IndexEntry<'_>, layer: LayerId) -> bool {
    &&& snapshot::normalized(vstd::utf8::encode_utf8(entry.relative_path@)) matches Some(path)
    &&& d.path.len() <= path.len()
    &&& is_split(path, d.path, path.skip(d.path.len() as int))
    &&& !d.deleted
    &&& d.layer == layer
    &&& d.frecency == 0
}

/// The two rows say the same of one file; it was not deleted in between.
pub open spec fn is_kept(a: FileModel, b: FileModel) -> bool {
    &&& b == (FileModel { deleted: b.deleted, ..a })
    &&& b.deleted ==> a.deleted
}

/// One entry adds at most a file and a directory, the latter only where there is
/// none with its path; other rows keep what they say, and at most come back to
/// life.
pub proof fn law_one_entry_adds_at_most_a_row(a: FileSync, b: FileSync, entry: IndexEntry<'_>, r: Outcome)
    requires
        a.wf(),
        entries::entry_joined(a, b, entry.record(), r),
        a.dir_models().len() < u32::MAX,
    ensures
        a.file_models().len() <= b.file_models().len() <= a.file_models().len() + 1,
        a.dir_models().len() <= b.dir_models().len() <= a.dir_models().len() + 1,
        forall|j: int|
            0 <= j < a.file_models().len() ==> is_kept(
                a.file_models()[j],
                #[trigger] b.file_models()[j],
            ),
        forall|d: int|
            0 <= d < a.dir_models().len() ==> (#[trigger] b.dir_models()[d]).path
                == a.dir_models()[d].path,
        b.file_models().len() == a.file_models().len() + 1 ==> is_of_entry(
            b.file_models().last(),
            b.dir_models(),
            entry,
            a.top_layer(),
        ),
        b.dir_models().len() == a.dir_models().len() + 1 ==> is_dir_of_entry(
            b.dir_models().last(),
            entry,
            a.top_layer(),
        ),
        b.dir_models().len() == a.dir_models().len() + 1 ==> a.finds_dir(
            b.dir_models().last().path,
            None,
        ),
        forall|d: int|
            0 <= d < a.dir_models().len() ==> (#[trigger] b.dir_models()[d]) == a.dir_models()[d]
                || b.dir_models()[d] == (DirModel { deleted: false, ..a.dir_models()[d] }),
{
    match entry.record() {
        None => {
            assert(b.file_models() =~= a.file_models());
            assert(b.dir_models() =~= a.dir_models());
        },
        Some(e) => {
            let found = choose|found: Option<int>| #[trigger]
                entries::joined_at(a, b, e, r, found);
            let m = a.tables(0, false);
            match found {
                Some(k) => {
                    assert(entries::bring_back(m, k) == b.tables(0 + r.count(), false));
                    assert(a.file_ok(k));
                },
                None => {
                    let dir = choose|dir: Option<int>| #[trigger]
                        entries::fresh_in(a, b, e, r, dir);
                    assert(entries::add_fresh_in(
                        m,
                        e,
                        a.top_layer(),
                        a.files.capacity as nat,
                        a.dirs.capacity as nat,
                        dir,
                    ) == b.tables(0 + r.count(), r == Outcome::Full));
                    bytes::lemma_after_last_slash(e.path);
                    let at = bytes::after_last_slash(e.path);
                    assert(e.path =~= e.path.take(at) + e.path.skip(at));
                    if b.file_models().len() == a.file_models().len() + 1 {
                        let f = b.file_models().last();
                        assert(f.path == e.path);
                        assert(e.path.len() < 4096);
                        assert(f.filename_offset == at);
                    }
                },
            }
        },
    }
}

/// What a chain of entries does to the rows.
proof fn lemma_chain(
    states: Seq<FileSync>,
    outcomes: Seq<Outcome>,
    entries: Seq<IndexEntry<'_>>,
    n: int,
    j: int,
)
    requires
        entries::is_entry_chain(states, outcomes, entries),
        0 <= n <= outcomes.len(),
        states[0].dir_models().len() + entries.len() <= u32::MAX,
    ensures
        states[n].top_layer() == states[0].top_layer(),
        states[0].file_models().len() <= states[n].file_models().len(),
        states[0].dir_models().len() <= states[n].dir_models().len()
            <= states[0].dir_models().len() + n,
        0 <= j < states[0].file_models().len() ==> is_kept(
            states[0].file_models()[j],
            states[n].file_models()[j],
        ),
        states[0].file_models().len() <= j < states[n].file_models().len() ==> exists|i: int|
            0 <= i < n && is_of_entry(
                states[n].file_models()[j],
                states[n].dir_models(),
                #[trigger] entries[i],
                states[0].top_layer(),
            ),
    decreases n,
{
    if n > 0 {
        lemma_chain(states, outcomes, entries, n - 1, j);
        let a = states[n - 1];
        let b = states[n];
        assert(entries::entry_joined(a, b, entries[n - 1].record(), outcomes[n - 1]));
        law_one_entry_adds_at_most_a_row(a, b, entries[n - 1], outcomes[n - 1]);
        if states[0].file_models().len() <= j < b.file_models().len() {
            if j < a.file_models().len() {
                let i = choose|i: int|
                    0 <= i < n - 1 && is_of_entry(
                        a.file_models()[j],
                        a.dir_models(),
                        #[trigger] entries[i],
                        states[0].top_layer(),
                    );
                assert(is_kept(a.file_models()[j], b.file_models()[j]));
                assert(is_of_entry(
                    b.file_models()[j],
                    b.dir_models(),
                    entries[i],
                    states[0].top_layer(),
                ));
            } else {
                assert(is_of_entry(
                    b.file_models()[j],
                    b.dir_models(),
                    entries[n - 1],
                    states[0].top_layer(),
                ));
            }
        }
    }
}

/// The rows of tables with a writable layer on top are those of the tables
/// before: some came to other places, and some to a layer below.
proof fn lemma_opened(before: FileSync, open: FileSync, j: int) -> (k: int)
    requires
        before.wf(),
        entries::has_open_top(before, open),
        0 <= j < before.file_models().len(),
    ensures
        open.file_models().len() == before.file_models().len(),
        open.dir_models().len() == before.dir_models().len(),
        0 <= k < before.file_models().len(),
        open.file_models()[j] == (FileModel {
            layer: open.file_models()[j].layer,
            ..before.file_models()[k]
        }),
{
    if before.layers.layers@.last().store is Open {
        j
    } else {
        let n = before.files.items@.len();
        let order = choose|order: Seq<usize>| #[trigger]
            sorting::is_permutation(order, n) && arrange::moves_within(
                order,
                before.fixed_slots(),
                n as int,
            ) && layer_ops::is_carried(
                before.file_models(),
                open.file_models(),
                before.is_full(),
                order,
            );
        assert(open.file_models()[j] == layer_ops::carried_file(
            before.file_models()[order[j] as int],
            before.is_full(),
        ));
        assert(before.file_models().len() == n);
        order[j] as int
    }
}

proof fn lemma_opened_back(before: FileSync, open: FileSync, k: int) -> (j: int)
    requires
        before.wf(),
        entries::has_open_top(before, open),
        0 <= k < before.file_models().len(),
    ensures
        open.file_models().len() == before.file_models().len(),
        open.dir_models().len() == before.dir_models().len(),
        0 <= j < open.file_models().len(),
        open.file_models()[j] == (FileModel {
            layer: open.file_models()[j].layer,
            ..before.file_models()[k]
        }),
{
    if before.layers.layers@.last().store is Open {
        k
    } else {
        let n = before.files.items@.len();
        let order = choose|order: Seq<usize>| #[trigger]
            sorting::is_permutation(order, n) && arrange::moves_within(
                order,
                before.fixed_slots(),
                n as int,
            ) && layer_ops::is_carried(
                before.file_models(),
                open.file_models(),
                before.is_full(),
                order,
            );
        assert(before.file_models().len() == n);
        sorting::lemma_permutation_covers(order, n, k as usize);
        let j = choose|j: int| 0 <= j < order.len() && order[j] == k as usize;
        assert(open.file_models()[j] == layer_ops::carried_file(
            before.file_models()[order[j] as int],
            before.is_full(),
        ));
        j
    }
}

/// A file that the index did not have and now has is live in the writable
/// layer, and carries the size and the modification time of the entry that
/// added it; its parent is the directory in front of its name. Nothing is known
/// of its uses yet.
pub proof fn law_new_files_carry_their_entries(
    before: FilePicker,
    after: FilePicker,
    entries: Seq<IndexEntry<'_>>,
    added: usize,
    j: int,
) -> (i: int)
    requires
        before.wf(),
        picker::entries_joined(before.sync_data, after.sync_data, entries, added),
        before.sync_data.dirs.items@.len() + entries.len() <= u32::MAX,
        0 <= j < after.sync_data.files.items@.len(),
        forall|k: int|
            0 <= k < before.sync_data.file_models().len() ==> (
            #[trigger] before.sync_data.file_models()[k]).path
                != after.sync_data.file_models()[j].path,
    ensures
        0 <= i < entries.len(),
        snapshot::normalized(vstd::utf8::encode_utf8(entries[i].relative_path@)) == Some(
            after.sync_data.file_models()[j].path,
        ),
        after.sync_data.files.items@[j].size == entries[i].size,
        after.sync_data.files.items@[j].modified == entries[i].modified,
        entries[i].binary matches Some(binary) ==> after.sync_data.files.items@[j].binary()
            == binary,
        !after.sync_data.files.items@[j].deleted(),
        after.sync_data.files.items@[j].layer() == after.sync_data.layers.layers@.len(),
        after.sync_data.files.items@[j].access_frecency_score == 0,
        after.sync_data.files.items@[j].modification_frecency_score == 0,
        after.sync_data.files.items@[j].git_recency_score == 0,
        !after.sync_data.files.items@[j].git_modified,
        ({
            let f = after.sync_data.files.items@[j];
            let path = after.sync_data.file_models()[j].path;
            let at = f.path.filename_offset as int;
            &&& at <= path.len()
            &&& is_split(path, path.take(at), path.skip(at))
            &&& f.parent_dir_index < after.sync_data.dir_models().len()
            &&& after.sync_data.dir_models()[f.parent_dir_index as int].path == path.take(at)
        }),
{
    let a = before.sync_data;
    let b = after.sync_data;
    let n = entries.len() as int;
    let g = choose|g: FileSync| #[trigger]
        entries::is_joined(g, b, entries, added) && adopt::grown(a, g, n, n);
    adopt::lemma_grown(a, g, n, n);
    let (states, outcomes) = choose|states: Seq<FileSync>, outcomes: Seq<Outcome>| #[trigger]
        entries::is_entry_chain(states, outcomes, entries) && entries::has_open_top(g, states[0])
            && states.last() == b && added == entries::count_added(
            outcomes,
            outcomes.len() as int,
        );
    let last = outcomes.len() as int;
    assert(states[last] == b);
    lemma_opened_len(g, states[0]);
    assert(g.dir_models().len() == a.dirs.items@.len());
    lemma_chain(states, outcomes, entries, last, j);
    if j < states[0].file_models().len() {
        let k = lemma_opened(g, states[0], j);
        assert(a.file_models()[k].path == b.file_models()[j].path);
    }
    let i = choose|i: int|
        0 <= i < last && is_of_entry(
            states[last].file_models()[j],
            states[last].dir_models(),
            #[trigger] entries[i],
            states[0].top_layer(),
        );
    lemma_chain_len(states, outcomes, entries, last);
    assert(states[0].wf());
    i
}

proof fn lemma_opened_len(before: FileSync, open: FileSync)
    requires
        before.wf(),
        entries::has_open_top(before, open),
    ensures
        open.file_models().len() == before.file_models().len(),
        open.dir_models().len() == before.dir_models().len(),
{
    if !(before.layers.layers@.last().store is Open) {
        assert(before.file_models().len() == before.files.items@.len());
    }
}

proof fn lemma_chain_len(
    states: Seq<FileSync>,
    outcomes: Seq<Outcome>,
    entries: Seq<IndexEntry<'_>>,
    n: int,
)
    requires
        entries::is_entry_chain(states, outcomes, entries),
        0 <= n <= outcomes.len(),
    ensures
        states[n].layers.layers@.len() == states[0].layers.layers@.len(),
    decreases n,
{
    if n > 0 {
        lemma_chain_len(states, outcomes, entries, n - 1);
        assert(entries::entry_joined(
            states[n - 1],
            states[n],
            entries[n - 1].record(),
            outcomes[n - 1],
        ));
    }
}

/// Adding entries takes nothing from a file that was there: its row keeps its
/// path, its size and times, its marks and its uses, and is not deleted.
pub proof fn law_old_files_are_kept(
    before: FilePicker,
    after: FilePicker,
    entries: Seq<IndexEntry<'_>>,
    added: usize,
    k: int,
) -> (j: int)
    requires
        before.wf(),
        picker::entries_joined(before.sync_data, after.sync_data, entries, added),
        before.sync_data.dirs.items@.len() + entries.len() <= u32::MAX,
        0 <= k < before.sync_data.file_models().len(),
    ensures
        0 <= j < after.sync_data.file_models().len(),
        ({
            let old_row = before.sync_data.file_models()[k];
            let new_row = after.sync_data.file_models()[j];
            &&& new_row == (FileModel {
                deleted: new_row.deleted,
                layer: new_row.layer,
                ..old_row
            })
            &&& new_row.deleted ==> old_row.deleted
        }),
{
    let a = before.sync_data;
    let b = after.sync_data;
    let n = entries.len() as int;
    let g = choose|g: FileSync| #[trigger]
        entries::is_joined(g, b, entries, added) && adopt::grown(a, g, n, n);
    adopt::lemma_grown(a, g, n, n);
    let (states, outcomes) = choose|states: Seq<FileSync>, outcomes: Seq<Outcome>| #[trigger]
        entries::is_entry_chain(states, outcomes, entries) && entries::has_open_top(g, states[0])
            && states.last() == b && added == entries::count_added(
            outcomes,
            outcomes.len() as int,
        );
    let last = outcomes.len() as int;
    assert(states[last] == b);
    let j = lemma_opened_back(g, states[0], k);
    assert(g.dir_models().len() == a.dirs.items@.len());
    lemma_chain(states, outcomes, entries, last, j);
    j
}

/// The number of files added is the number by which the live files grew.
pub proof fn law_added_files_are_counted(
    states: Seq<FileSync>,
    outcomes: Seq<Outcome>,
    entries: Seq<IndexEntry<'_>>,
    n: int,
)
    requires
        entries::is_entry_chain(states, outcomes, entries),
        0 <= n <= outcomes.len(),
    ensures
        states[n].live_count == states[0].live_count + entries::count_added(outcomes, n),
    decreases n,
{
    if n > 0 {
        law_added_files_are_counted(states, outcomes, entries, n - 1);
        let a = states[n - 1];
        let b = states[n];
        assert(a.wf() && b.wf());
        let r = outcomes[n - 1];
        assert(entries::entry_joined(a, b, entries[n - 1].record(), r));
        let fa = a.file_models();
        let fb = b.file_models();
        let len = fa.len() as int;
        assert(a.files.items@.len() == len);
        assert(b.files.items@.len() == fb.len());
        match entries[n - 1].record() {
            None => {},
            Some(e) => {
                let found = choose|found: Option<int>| #[trigger]
                    entries::joined_at(a, b, e, r, found);
                let m = a.tables(0, false);
                match found {
                    Some(k) => {
                        assert(entries::bring_back(m, k) == b.tables(0 + r.count(), false));
                        if fa[k].deleted {
                            entries::lemma_live_update(fa, k, len);
                        }
                    },
                    None => {
                        let dir = choose|dir: Option<int>| #[trigger]
                            entries::fresh_in(a, b, e, r, dir);
                        assert(entries::add_fresh_in(
                            m,
                            e,
                            a.top_layer(),
                            a.files.capacity as nat,
                            a.dirs.capacity as nat,
                            dir,
                        ) == b.tables(0 + r.count(), r == Outcome::Full));
                        lemma_live_front(fa, fb, len);
                    },
                }
            },
        }
    }
}

proof fn lemma_live_front(a: Seq<FileModel>, b: Seq<FileModel>, n: int)
    requires
        0 <= n <= a.len(),
        n <= b.len(),
        forall|i: int| 0 <= i < n ==> a[i] == b[i],
    ensures
        crate::file_picker::sync::live_files(a, n) == crate::file_picker::sync::live_files(b, n),
    decreases n,
{
    if n > 0 {
        lemma_live_front(a, b, n - 1);
    }
}

} // verus!
