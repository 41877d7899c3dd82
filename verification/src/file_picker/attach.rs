//! Attaching a snapshot as a layer of its own.

use crate::bytes;
use crate::file_picker::arrange;
use crate::file_picker::compact;
use crate::file_picker::entries;
use crate::file_picker::layer_ops;
use crate::file_picker::sync;
use crate::file_picker::sync::{read_path, DirModel, FileModel, FileSync};
use crate::index::codec::{LayerSnapshot, SnapshotLayout};
use crate::index::layers;
use crate::index::layers::{IndexLayer, LayerId, LayerStore};
use crate::index::path_index::SlotPaths;
use crate::sorting;
use crate::types;
use crate::types::{DirItem, FileItem};
use vstd::prelude::*;

verus! {

impl LayerSnapshot {
    pub open spec fn file_models(&self) -> Seq<FileModel> {
        Seq::new(self.files@.len(), |i: int| sync::file_model(self.files@[i], self.file_text(i)))
    }

    pub open spec fn dir_models(&self) -> Seq<DirModel> {
        Seq::new(self.dirs@.len(), |i: int| sync::dir_model(self.dirs@[i], self.dir_text(i)))
    }

    /// Paths and directories occur once, files name their directories, and a
    /// layout of sorted files is one.
    pub open spec fn ordered(&self) -> bool {
        let files = self.file_models();
        let dirs = self.dir_models();
        &&& forall|i: int, j: int|
            0 <= i < j < files.len() ==> (#[trigger] files[i]).path != (#[trigger] files[j]).path
        &&& forall|i: int, j: int|
            0 <= i < j < dirs.len() ==> !bytes::lex_le(
                (#[trigger] dirs[j]).path,
                (#[trigger] dirs[i]).path,
            )
        &&& forall|i: int| 0 <= i < files.len() ==> sync::tidy_file(#[trigger] files[i], dirs)
        &&& self.layout == SnapshotLayout::Sorted ==> sync::keys_ascend(
            files,
            0,
            files.len() as int,
        )
    }
}

/// The directory table while the directories of a snapshot join it.
pub struct DirImport {
    pub dirs: Seq<DirModel>,
    /// Where each directory of the snapshot is in the table.
    pub map: Seq<u32>,
    pub stopped: bool,
}

/// A directory that the table has is not added again.
pub open spec fn import_dir(m: DirImport, d: DirModel, layer: LayerId, room: nat) -> DirImport {
    if m.stopped {
        m
    } else {
        match entries::find_dir(m.dirs, d.path) {
            Some(i) => DirImport { map: m.map.push(i as u32), ..m },
            None => if m.dirs.len() >= room {
                DirImport { stopped: true, ..m }
            } else {
                DirImport {
                    dirs: m.dirs.push(DirModel { layer, deleted: false, ..d }),
                    map: m.map.push(m.dirs.len() as u32),
                    stopped: false,
                }
            },
        }
    }
}

/// A directory is at place `x` now: it was found there, or it joined the top
/// layer behind the others.
pub open spec fn dir_imported(a: FileSync, b: FileSync, d: DirModel, x: u32) -> bool {
    &&& entries::same_frame(a, b)
    &&& b.file_models() == a.file_models()
    &&& if x < a.dir_models().len() {
        a.finds_dir(d.path, Some(x as int)) && b.dir_models() == a.dir_models()
    } else {
        &&& x == a.dir_models().len()
        &&& a.finds_dir(d.path, None)
        &&& a.dir_models().len() < a.dirs.capacity
        &&& b.dir_models() == a.dir_models().push(
            DirModel { layer: a.top_layer(), deleted: false, ..d },
        )
    }
}

/// Directories join one after another, up to the first for which there is no
/// room.
pub open spec fn is_dir_chain(states: Seq<FileSync>, map: Seq<u32>, rows: Seq<DirModel>) -> bool {
    &&& states.len() == map.len() + 1
    &&& map.len() <= rows.len()
    &&& forall|k: int|
        0 <= k < map.len() ==> dir_imported(states[k], states[k + 1], rows[k], #[trigger] map[k])
    &&& map.len() < rows.len() ==> states.last().finds_dir(rows[map.len() as int].path, None)
        && states.last().dir_models().len() >= states.last().dirs.capacity
}

/// The directories joined tables of any order.
pub open spec fn dirs_imported(
    a: FileSync,
    b: FileSync,
    rows: Seq<DirModel>,
    map: Seq<u32>,
) -> bool {
    exists|states: Seq<FileSync>| #[trigger]
        is_dir_chain(states, map, rows) && states[0] == a && b.same_tables(states.last())
}

pub open spec fn import_dirs_upto(
    m: DirImport,
    dirs: Seq<DirModel>,
    n: int,
    layer: LayerId,
    room: nat,
) -> DirImport
    decreases n,
{
    if n <= 0 {
        m
    } else {
        import_dir(import_dirs_upto(m, dirs, n - 1, layer, room), dirs[n - 1], layer, room)
    }
}

/// Both tables while the files of a snapshot join them.
pub struct FileImport {
    pub files: Seq<FileModel>,
    pub dirs: Seq<DirModel>,
    pub added: nat,
    pub stopped: bool,
}

/// Where a file of a snapshot goes.
pub struct Place {
    /// Where the directories of the snapshot are in the table.
    pub map: Seq<u32>,
    pub layer: LayerId,
    pub room: nat,
    /// Files that were in the table before.
    pub known: int,
}

/// A path that was in the table before is not added again; where its row was
/// deleted, it comes back. A file whose directory did not fit is left out.
pub open spec fn import_file(m: FileImport, f: FileModel, at: Place) -> FileImport {
    if m.stopped || f.parent >= at.map.len() {
        m
    } else {
        import_file_in(m, f, at, entries::find_file(m.files.take(at.known), f.path))
    }
}

/// The file was `found` among those known before, or was not.
pub open spec fn import_file_in(
    m: FileImport,
    f: FileModel,
    at: Place,
    found: Option<int>,
) -> FileImport {
    match found {
        Some(i) => if m.files[i].deleted {
            FileImport {
                files: m.files.update(i, entries::live_file(m.files[i])),
                dirs: entries::revived(m.dirs, m.files[i].parent as int),
                added: m.added + 1,
                stopped: false,
            }
        } else {
            m
        },
        None => if m.files.len() >= at.room {
            FileImport { stopped: true, ..m }
        } else {
            FileImport {
                files: m.files.push(
                    FileModel {
                        layer: at.layer,
                        deleted: false,
                        parent: at.map[f.parent as int],
                        ..f
                    },
                ),
                dirs: entries::revived(m.dirs, at.map[f.parent as int] as int),
                added: m.added + 1,
                stopped: false,
            }
        },
    }
}

/// `b` are the tables of `a` with a file that was `found`, or was not.
pub open spec fn file_imported_at(
    a: FileSync,
    b: FileSync,
    f: FileModel,
    at: Place,
    r: entries::Outcome,
    found: Option<int>,
) -> bool {
    &&& a.finds_file(at.known, f.path, found)
    &&& forall|k: nat|
        import_file_in(#[trigger] import_state(a, k, false), f, at, found) == import_state(
            b,
            k + r.count(),
            r == entries::Outcome::Full,
        )
}

/// What a file of a snapshot does to tables of any order.
pub open spec fn file_imported(
    a: FileSync,
    b: FileSync,
    f: FileModel,
    at: Place,
    r: entries::Outcome,
) -> bool {
    &&& entries::same_frame(a, b)
    &&& if f.parent >= at.map.len() {
        r == entries::Outcome::Skipped && b.same_tables(a)
    } else {
        exists|found: Option<int>| #[trigger] file_imported_at(a, b, f, at, r, found)
    }
}

/// Files join one after another, up to the first for which there is no room.
pub open spec fn is_file_chain(
    states: Seq<FileSync>,
    outcomes: Seq<entries::Outcome>,
    rows: Seq<FileModel>,
    at: Place,
) -> bool {
    &&& states.len() == outcomes.len() + 1
    &&& outcomes.len() <= rows.len()
    &&& forall|k: int|
        0 <= k < outcomes.len() ==> file_imported(
            states[k],
            states[k + 1],
            rows[k],
            at,
            #[trigger] outcomes[k],
        )
    &&& forall|k: int|
        0 <= k < outcomes.len() - 1 ==> (#[trigger] outcomes[k]) != entries::Outcome::Full
    &&& outcomes.len() < rows.len() ==> outcomes.len() > 0 && outcomes.last()
        == entries::Outcome::Full
}

/// The files joined tables of any order; `added` of them were not there before.
pub open spec fn files_imported(
    a: FileSync,
    b: FileSync,
    rows: Seq<FileModel>,
    at: Place,
    added: usize,
) -> bool {
    exists|states: Seq<FileSync>, outcomes: Seq<entries::Outcome>| #[trigger]
        is_file_chain(states, outcomes, rows, at) && states[0] == a && states.last() == b && added
            == entries::count_added(outcomes, outcomes.len() as int)
}

pub open spec fn import_files_upto(
    m: FileImport,
    files: Seq<FileModel>,
    n: int,
    at: Place,
) -> FileImport
    decreases n,
{
    if n <= 0 {
        m
    } else {
        import_file(import_files_upto(m, files, n - 1, at), files[n - 1], at)
    }
}

proof fn lemma_dirs_stopped(
    m: DirImport,
    dirs: Seq<DirModel>,
    from: int,
    n: int,
    layer: LayerId,
    room: nat,
)
    requires
        0 <= from <= n,
        import_dirs_upto(m, dirs, from, layer, room).stopped,
    ensures
        import_dirs_upto(m, dirs, n, layer, room) == import_dirs_upto(m, dirs, from, layer, room),
    decreases n,
{
    if from < n {
        lemma_dirs_stopped(m, dirs, from, n - 1, layer, room);
    }
}

proof fn lemma_files_stopped(m: FileImport, files: Seq<FileModel>, from: int, n: int, at: Place)
    requires
        0 <= from <= n,
        import_files_upto(m, files, from, at).stopped,
    ensures
        import_files_upto(m, files, n, at) == import_files_upto(m, files, from, at),
    decreases n,
{
    if from < n {
        lemma_files_stopped(m, files, from, n - 1, at);
    }
}

/// What the rows of a list would say in the top layer.
pub open spec fn dir_models_of(sync: FileSync, dirs: Seq<DirItem>) -> Seq<DirModel> {
    Seq::new(
        dirs.len(),
        |i: int|
            sync::dir_model(
                dirs[i],
                sync::text_in(sync.layers, sync.chunked_paths, sync.top_layer(), dirs[i].path),
            ),
    )
}

pub open spec fn file_models_of(sync: FileSync, files: Seq<FileItem>) -> Seq<FileModel> {
    Seq::new(
        files.len(),
        |i: int|
            sync::file_model(
                files[i],
                sync::text_in(sync.layers, sync.chunked_paths, sync.top_layer(), files[i].path),
            ),
    )
}

impl FileSync {
    /// Adds the directories of a snapshot whose arena is the top layer's.
    /// Returns where they are, up to the first that did not fit.
    fn import_dirs(&mut self, dirs: &Vec<DirItem>) -> (map: Vec<u32>)
        requires
            old(self).wf(),
            old(self).dirs.items@.len() + dirs@.len() <= u32::MAX,
            forall|i: int|
                0 <= i < dirs@.len() ==> sync::named(
                    old(self).layers,
                    old(self).chunked_paths,
                    old(self).top_layer(),
                    (#[trigger] dirs@[i]).path,
                ),
        ensures
            final(self).wf(),
            entries::same_frame(*old(self), *final(self)),
            final(self).files == old(self).files,
            final(self).file_models() == old(self).file_models(),
            final(self).dirs.items@.len() <= old(self).dirs.items@.len() + dirs@.len(),
            map@.len() <= dirs@.len(),
            forall|i: int|
                0 <= i < map@.len() ==> (#[trigger] map@[i]) < final(self).dirs.items@.len()
                    && final(self).dir_models()[map@[i] as int].path == dir_models_of(
                    *old(self),
                    dirs@,
                )[i].path,
            dirs_imported(*old(self), *final(self), dir_models_of(*old(self), dirs@), map@),
            old(self).ordered() ==> {
                let m = import_dirs_upto(
                    DirImport { dirs: old(self).dir_models(), map: Seq::empty(), stopped: false },
                    dir_models_of(*old(self), dirs@),
                    dirs@.len() as int,
                    old(self).top_layer(),
                    old(self).dirs.capacity as nat,
                );
                &&& final(self).ordered()
                &&& final(self).dir_models() == m.dirs
                &&& map@ == m.map
            },
    {
        let ghost a = *self;
        let ghost rows = dir_models_of(a, dirs@);
        let ghost start = DirImport { dirs: a.dir_models(), map: Seq::empty(), stopped: false };
        let ghost room = a.dirs.capacity as nat;
        let layer: LayerId = self.layers.top_id();
        let mut map: Vec<u32> = Vec::new();
        let mut full: bool = false;
        let mut i: usize = 0;
        let ghost mut states: Seq<FileSync> = seq![a];
        while i < dirs.len() && !full
            invariant
                self.wf(),
                a == *old(self),
                rows == dir_models_of(a, dirs@),
                room == a.dirs.capacity,
                layer == a.top_layer(),
                start == (DirImport { dirs: a.dir_models(), map: Seq::empty(), stopped: false }),
                entries::same_frame(a, *self),
                self.files == a.files,
                self.file_models() == a.file_models(),
                i <= dirs@.len(),
                self.dirs.items@.len() <= a.dirs.items@.len() + i,
                a.dirs.items@.len() + dirs@.len() <= u32::MAX,
                forall|k: int|
                    0 <= k < dirs@.len() ==> sync::named(
                        a.layers,
                        a.chunked_paths,
                        a.top_layer(),
                        (#[trigger] dirs@[k]).path,
                    ),
                map@.len() <= i,
                !full ==> map@.len() == i,
                full ==> map@.len() == i - 1 && states.last().finds_dir(rows[i - 1].path, None)
                    && states.last().dir_models().len() >= states.last().dirs.capacity,
                states.len() == map@.len() + 1,
                states[0] == a,
                self.same_tables(states.last()),
                forall|k: int|
                    0 <= k < map@.len() ==> dir_imported(
                        states[k],
                        states[k + 1],
                        rows[k],
                        #[trigger] map@[k],
                    ),
                forall|k: int|
                    0 <= k < map@.len() ==> (#[trigger] map@[k]) < self.dirs.items@.len()
                        && self.dir_models()[map@[k] as int].path == rows[k].path,
                a.ordered() ==> self.ordered() && import_dirs_upto(
                    start,
                    rows,
                    i as int,
                    layer,
                    room,
                ) == (DirImport { dirs: self.dir_models(), map: map@, stopped: full }),
            decreases dirs@.len() - i,
        {
            let mut dir: DirItem = dirs[i];
            let text = read_path(&self.layers, &self.chunked_paths, layer, &dir.path);
            assert(text@ == rows[i as int].path);
            let ghost held = *self;
            let ghost last = states.last();
            let ghost old_states = states;
            let ghost old_map = map@;
            assert(held.dir_models() =~= last.dir_models());
            assert(held.file_models() =~= last.file_models());
            assert(held.dir_slots() == last.dir_slots());
            let found = self.find_dir_index(text.as_slice());
            let ghost looked = *self;
            proof {
                sync::lemma_same_tables(held, looked);
                if held.ordered() {
                    entries::lemma_found_dir(held, found, text@);
                }
            }
            match found {
                Some(d) => {
                    map.push(d as u32);
                    proof {
                        assert(last.finds_dir(text@, Some(d as int)));
                        assert(dir_imported(last, *self, rows[i as int], d as u32));
                        states = states.push(*self);
                    }
                },
                None => {
                    assert(last.finds_dir(text@, None));
                    let index: usize = self.dirs.len();
                    dir.set_layer(layer);
                    dir.set_deleted(false);
                    proof {
                        entries::lemma_live_dirs_bound(
                            looked.dir_models(),
                            looked.dirs.items@.len() as int,
                        );
                    }
                    if self.dirs.push(dir) {
                        self.live_dirs_count += 1;
                        proof {
                            entries::lemma_dir_pushed(looked, *self, dir);
                            let m = DirModel { layer, deleted: false, ..rows[i as int] };
                            assert(self.dir_models() == looked.dir_models().push(m));
                            if held.ordered() {
                                assert forall|k: int| 0 <= k < looked.dir_models().len() implies (
                                #[trigger] looked.dir_models()[k]).path != m.path by {
                                    assert(!entries::dir_at(held.dir_models(), text@, k));
                                }
                                entries::lemma_dir_pushed_ordered(looked, *self, m);
                            }
                        }
                        map.push(index as u32);
                        proof {
                            assert(dir_imported(last, *self, rows[i as int], index as u32));
                            states = states.push(*self);
                        }
                    } else {
                        full = true;
                    }
                },
            }
            proof {
                assert forall|k: int| 0 <= k < map@.len() implies dir_imported(
                    states[k],
                    states[k + 1],
                    rows[k],
                    #[trigger] map@[k],
                ) by {
                    if k < old_map.len() {
                        assert(map@[k] == old_map[k]);
                        assert(states[k] == old_states[k] && states[k + 1] == old_states[k + 1]);
                    }
                }
            }
            i += 1;
        }
        assert(is_dir_chain(states, map@, rows));
        proof {
            if a.ordered() && full {
                lemma_dirs_stopped(start, rows, i as int, dirs@.len() as int, layer, room);
            }
        }
        map
    }
}


/// The files from `known` on are rows of the list, in its order.
pub open spec fn picked_rows(
    files: Seq<FileModel>,
    known: int,
    rows: Seq<FileModel>,
    src: Seq<int>,
) -> bool {
    &&& src.len() == files.len() - known
    &&& forall|t: int|
        0 <= t < src.len() ==> 0 <= (#[trigger] src[t]) < rows.len() && files[known + t].path
            == rows[src[t]].path && files[known + t].filename_offset
            == rows[src[t]].filename_offset
    &&& forall|t: int, u: int| 0 <= t < u < src.len() ==> (#[trigger] src[t]) < (#[trigger] src[u])
}

/// The rows have different paths, and each names its directory.
pub open spec fn rows_fit(rows: Seq<FileModel>, dirs: Seq<DirModel>) -> bool {
    &&& forall|i: int, j: int|
        0 <= i < j < rows.len() ==> (#[trigger] rows[i]).path != (#[trigger] rows[j]).path
    &&& forall|i: int| 0 <= i < rows.len() ==> sync::tidy_file(#[trigger] rows[i], dirs)
}

proof fn lemma_found_known(a: FileSync, found: Option<usize>, known: int, path: Seq<u8>)
    requires
        a.wf(),
        a.ordered(),
        0 <= known <= a.files.items@.len(),
        match found {
            Some(i) => i < known && a.file_text(i as int) == path,
            None => !a.has_file(known, path),
        },
    ensures
        match found {
            Some(i) => entries::find_file(a.file_models().take(known), path) == Some(i as int),
            None => entries::find_file(a.file_models().take(known), path) is None && forall|i: int|
                0 <= i < known ==> (#[trigger] a.file_models()[i]).path != path,
        },
{
    let files = a.file_models().take(known);
    match found {
        Some(i) => {
            assert(entries::file_at(files, path, i as int));
            let j = choose|j: int| #[trigger] entries::file_at(files, path, j);
            if j < i {
                assert(a.file_models()[j].path != a.file_models()[i as int].path);
            } else if i < j {
                assert(a.file_models()[i as int].path != a.file_models()[j].path);
            }
        },
        None => {
            assert forall|i: int| 0 <= i < known implies (#[trigger] a.file_models()[i]).path
                != path by {
                assert(a.file_slots().path_at(i) != path);
            }
            if exists|i: int| #[trigger] entries::file_at(files, path, i) {
                let i = choose|i: int| #[trigger] entries::file_at(files, path, i);
                assert(a.file_models()[i].path == path);
            }
        },
    }
}

impl FileSync {
    /// Adds one file of the snapshot. `Full` when there is no room.
    fn import_one(
        &mut self,
        row: &FileItem,
        map: &Vec<u32>,
        known: usize,
        drows: Ghost<Seq<DirModel>>,
    ) -> (r: entries::Outcome)
        requires
            old(self).wf(),
            old(self).files.items@.len() < u32::MAX,
            old(self).base_count <= known <= old(self).files.items@.len(),
            sync::named(
                old(self).layers,
                old(self).chunked_paths,
                old(self).top_layer(),
                row.path,
            ),
            map@.len() <= drows@.len(),
            forall|i: int|
                0 <= i < map@.len() ==> (#[trigger] map@[i]) < old(self).dirs.items@.len()
                    && old(self).dir_models()[map@[i] as int].path == drows@[i].path,
        ensures
            final(self).wf(),
            entries::same_frame(*old(self), *final(self)),
            final(self).dirs.items@.len() == old(self).dirs.items@.len(),
            old(self).files.items@.len() <= final(self).files.items@.len() <= old(
                self).files.items@.len() + 1,
            forall|i: int|
                0 <= i < map@.len() ==> (#[trigger] map@[i]) < final(self).dirs.items@.len()
                    && final(self).dir_models()[map@[i] as int].path == drows@[i].path,
            file_imported(
                *old(self),
                *final(self),
                sync::file_model(
                    *row,
                    sync::text_in(
                        old(self).layers,
                        old(self).chunked_paths,
                        old(self).top_layer(),
                        row.path,
                    ),
                ),
                (Place {
                    map: map@,
                    layer: old(self).top_layer(),
                    room: old(self).files.capacity as nat,
                    known: known as int,
                }),
                r,
            ),
            ({
                let f = sync::file_model(
                    *row,
                    sync::text_in(
                        old(self).layers,
                        old(self).chunked_paths,
                        old(self).top_layer(),
                        row.path,
                    ),
                );
                old(self).ordered() && !old(self).layers.layers@.last().sorted && sync::tidy_file(
                    f,
                    drows@,
                ) && (forall|i: int|
                    known <= i < old(self).file_models().len() ==> (
                    #[trigger] old(self).file_models()[i]).path != f.path) ==> {
                    &&& final(self).ordered()
                    &&& forall|k: nat|
                        import_file(
                            #[trigger] import_state(*old(self), k, false),
                            f,
                            (Place {
                                map: map@,
                                layer: old(self).top_layer(),
                                room: old(self).files.capacity as nat,
                                known: known as int,
                            }),
                        ) == import_state(
                            *final(self),
                            k + r.count(),
                            r == entries::Outcome::Full,
                        )
                    &&& kept_or_pushed(
                        old(self).file_models(),
                        final(self).file_models(),
                        f,
                        known as int,
                    )
                }
            }),
    {
        let ghost a = *self;
        let layer: LayerId = self.layers.top_id();
        let parent: usize = row.parent_dir_index as usize;
        if parent >= map.len() {
            return entries::Outcome::Skipped;
        }
        let dir_idx: u32 = map[parent];
        let text = read_path(&self.layers, &self.chunked_paths, layer, &row.path);
        let found = self.lookup_relative_path(text.as_slice(), known);
        let ghost looked = *self;
        let ghost f = sync::file_model(*row, text@);
        let ghost at = Place {
            map: map@,
            layer: a.top_layer(),
            room: a.files.capacity as nat,
            known: known as int,
        };
        proof {
            sync::lemma_same_tables(a, looked);
            if a.ordered() {
                lemma_found_known(a, found, known as int, text@);
            }
        }
        if let Some(i) = found {
            assert(looked.file_ok(i as int));
            if self.revive_file(i) {
                assert forall|x: int|
                    0 <= x < self.dirs.items@.len() implies #[trigger] self.dir_models()[x].path
                    == looked.dir_models()[x].path by {}
                assert(file_imported_at(
                    a,
                    *self,
                    f,
                    at,
                    entries::Outcome::Added,
                    Some(i as int),
                ));
                return entries::Outcome::Added;
            } else {
                assert(file_imported_at(
                    a,
                    *self,
                    f,
                    at,
                    entries::Outcome::Skipped,
                    Some(i as int),
                ));
                return entries::Outcome::Skipped;
            }
        }
        let mut file: FileItem = *row;
        file.set_layer(layer);
        file.set_deleted(false);
        file.parent_dir_index = dir_idx;
        let ghost m = FileModel { layer, deleted: false, parent: dir_idx, ..f };
        proof {
            assert(sync::file_model(file, text@) == m);
            if a.ordered() && sync::tidy_file(f, drows@) {
                assert(sync::tidy_file(m, looked.dir_models()));
            }
        }
        assert(a.finds_file(known as int, f.path, None));
        if !self.push_file(file) {
            assert(file_imported_at(a, *self, f, at, entries::Outcome::Full, None));
            return entries::Outcome::Full;
        }
        self.revive_dir(dir_idx);
        assert(file_imported_at(a, *self, f, at, entries::Outcome::Added, None));
        entries::Outcome::Added
    }
}

pub open spec fn import_state(sync: FileSync, added: nat, stopped: bool) -> FileImport {
    FileImport { files: sync.file_models(), dirs: sync.dir_models(), added, stopped }
}

/// Rows before `known` may have come back to life; then nothing was appended.
/// Otherwise at most a row for `f` was.
pub open spec fn kept_or_pushed(
    before: Seq<FileModel>,
    after: Seq<FileModel>,
    f: FileModel,
    known: int,
) -> bool {
    &&& before.len() <= after.len() <= before.len() + 1
    &&& forall|i: int|
        0 <= i < before.len() ==> (#[trigger] after[i]).path == before[i].path
            && after[i].filename_offset == before[i].filename_offset
    &&& after.len() > before.len() ==> after[before.len() as int].path == f.path
        && after[before.len() as int].filename_offset == f.filename_offset
}


impl FileSync {
    /// Adds the files of a snapshot whose arena is the top layer's, next to the
    /// first `known` files. Returns the number added.
    fn import_files(
        &mut self,
        rows: &Vec<FileItem>,
        map: &Vec<u32>,
        known: usize,
        drows: Ghost<Seq<DirModel>>,
    ) -> (added: usize)
        requires
            old(self).wf(),
            known == old(self).files.items@.len(),
            old(self).files.items@.len() + rows@.len() <= u32::MAX,
            forall|i: int|
                0 <= i < rows@.len() ==> sync::named(
                    old(self).layers,
                    old(self).chunked_paths,
                    old(self).top_layer(),
                    (#[trigger] rows@[i]).path,
                ),
            map@.len() <= drows@.len(),
            forall|i: int|
                0 <= i < map@.len() ==> (#[trigger] map@[i]) < old(self).dirs.items@.len()
                    && old(self).dir_models()[map@[i] as int].path == drows@[i].path,
            !old(self).layers.layers@.last().sorted,
        ensures
            final(self).wf(),
            final(self).files.items@.len() <= old(self).files.items@.len() + rows@.len(),
            final(self).dirs.items@.len() == old(self).dirs.items@.len(),
            entries::same_frame(*old(self), *final(self)),
            final(self).dirs.items@.len() == old(self).dirs.items@.len(),
            old(self).files.items@.len() <= final(self).files.items@.len(),
            files_imported(
                *old(self),
                *final(self),
                file_models_of(*old(self), rows@),
                (Place {
                    map: map@,
                    layer: old(self).top_layer(),
                    room: old(self).files.capacity as nat,
                    known: known as int,
                }),
                added,
            ),
            old(self).ordered() && rows_fit(file_models_of(*old(self), rows@), drows@) ==> {
                let m = import_files_upto(
                    import_state(*old(self), 0, false),
                    file_models_of(*old(self), rows@),
                    rows@.len() as int,
                    (Place {
                        map: map@,
                        layer: old(self).top_layer(),
                        room: old(self).files.capacity as nat,
                        known: known as int,
                    }),
                );
                &&& final(self).ordered()
                &&& final(self).file_models() == m.files
                &&& final(self).dir_models() == m.dirs
                &&& added == m.added
                &&& exists|src: Seq<int>| #[trigger]
                    picked_rows(
                        final(self).file_models(),
                        known as int,
                        file_models_of(*old(self), rows@),
                        src,
                    )
            },
    {
        let ghost a = *self;
        let ghost models = file_models_of(a, rows@);
        let ghost fits = a.ordered() && rows_fit(models, drows@);
        let ghost place = Place {
            map: map@,
            layer: a.top_layer(),
            room: a.files.capacity as nat,
            known: known as int,
        };
        let ghost start = import_state(a, 0, false);
        let ghost mut src = Seq::<int>::empty();
        let ghost mut states: Seq<FileSync> = seq![a];
        let ghost mut outcomes: Seq<entries::Outcome> = Seq::empty();
        proof {
            entries::lemma_starts_bound(a);
        }
        let mut added: usize = 0;
        let mut full: bool = false;
        let mut i: usize = 0;
        while i < rows.len() && !full
            invariant
                a == *old(self),
                self.wf(),
                models == file_models_of(a, rows@),
                fits == (a.ordered() && rows_fit(models, drows@)),
                start == import_state(a, 0, false),
                place == (Place {
                    map: map@,
                    layer: a.top_layer(),
                    room: a.files.capacity as nat,
                    known: known as int,
                }),
                entries::same_frame(a, *self),
                !a.layers.layers@.last().sorted,
                self.dirs.items@.len() == a.dirs.items@.len(),
                a.base_count <= known == a.files.items@.len() <= self.files.items@.len(),
                self.files.items@.len() <= a.files.items@.len() + i,
                a.files.items@.len() + rows@.len() <= u32::MAX,
                i <= rows@.len(),
                added <= i,
                forall|k: int|
                    0 <= k < rows@.len() ==> sync::named(
                        a.layers,
                        a.chunked_paths,
                        a.top_layer(),
                        (#[trigger] rows@[k]).path,
                    ),
                map@.len() <= drows@.len(),
                forall|k: int|
                    0 <= k < map@.len() ==> (#[trigger] map@[k]) < self.dirs.items@.len()
                        && self.dir_models()[map@[k] as int].path == drows@[k].path,
                states.len() == i + 1,
                outcomes.len() == i,
                states[0] == a,
                states.last() == *self,
                added == entries::count_added(outcomes, i as int),
                forall|k: int|
                    0 <= k < i ==> file_imported(
                        states[k],
                        states[k + 1],
                        models[k],
                        place,
                        #[trigger] outcomes[k],
                    ),
                forall|k: int|
                    0 <= k < i - 1 ==> (#[trigger] outcomes[k]) != entries::Outcome::Full,
                i > 0 ==> full == (outcomes.last() == entries::Outcome::Full),
                i == 0 ==> !full,
                fits ==> {
                    &&& self.ordered()
                    &&& import_files_upto(start, models, i as int, place) == import_state(
                        *self,
                        added as nat,
                        full,
                    )
                    &&& picked_rows(self.file_models(), known as int, models, src)
                    &&& forall|t: int| 0 <= t < src.len() ==> (#[trigger] src[t]) < i
                },
            decreases rows@.len() - i,
        {
            let ghost held = *self;
            let ghost count = added as nat;
            let ghost f = models[i as int];
            proof {
                if fits {
                    assert forall|k: int| known <= k < held.file_models().len() implies (
                    #[trigger] held.file_models()[k]).path != f.path by {
                        let t = k - known;
                        assert(src[t] < i);
                        assert(models[src[t]].path != models[i as int].path);
                    }
                    assert(sync::tidy_file(f, drows@));
                }
            }
            let outcome = self.import_one(&rows[i], map, known, drows);
            proof {
                let old_states = states;
                let old_outcomes = outcomes;
                states = states.push(*self);
                outcomes = outcomes.push(outcome);
                entries::lemma_count_pushed(old_outcomes, outcome, i as int);
                assert(file_imported(held, *self, f, place, outcome));
                assert forall|k: int| 0 <= k < outcomes.len() implies file_imported(
                    states[k],
                    states[k + 1],
                    models[k],
                    place,
                    #[trigger] outcomes[k],
                ) by {
                    if k < i {
                        assert(outcomes[k] == old_outcomes[k]);
                        assert(states[k] == old_states[k] && states[k + 1] == old_states[k + 1]);
                    }
                }
                if fits {
                    assert(import_file(import_state(held, count, false), f, place)
                        == import_state(
                        *self,
                        count + outcome.count(),
                        outcome == entries::Outcome::Full,
                    ));
                    if self.file_models().len() > held.file_models().len() {
                        let old_src = src;
                        src = src.push(i as int);
                        assert(picked_rows(self.file_models(), known as int, models, src)) by {
                            assert forall|t: int| 0 <= t < src.len() implies 0 <= (
                            #[trigger] src[t]) < models.len() && self.file_models()[known
                                + t].path == models[src[t]].path && self.file_models()[known
                                + t].filename_offset == models[src[t]].filename_offset by {
                                if t < old_src.len() {
                                    assert(src[t] == old_src[t]);
                                    assert(self.file_models()[known + t].path
                                        == held.file_models()[known + t].path);
                                }
                            }
                        }
                    } else {
                        assert(picked_rows(self.file_models(), known as int, models, src)) by {
                            assert forall|t: int| 0 <= t < src.len() implies 0 <= (
                            #[trigger] src[t]) < models.len() && self.file_models()[known
                                + t].path == models[src[t]].path && self.file_models()[known
                                + t].filename_offset == models[src[t]].filename_offset by {
                                assert(self.file_models()[known + t].path
                                    == held.file_models()[known + t].path);
                            }
                        }
                    }
                }
            }
            match outcome {
                entries::Outcome::Added => {
                    added += 1;
                },
                entries::Outcome::Skipped => {},
                entries::Outcome::Full => {
                    full = true;
                },
            }
            i += 1;
        }
        proof {
            assert(is_file_chain(states, outcomes, models, place));
            if fits && full {
                lemma_files_stopped(start, models, i as int, rows@.len() as int, place);
            }
        }
        added
    }
}


/// `base` is `before` sealed, with room for one more layer.
pub open spec fn room_made(before: FileSync, base: FileSync) -> bool {
    &&& base.wf()
    &&& !base.is_full()
    &&& layer_ops::carried(before, base, before.is_full(), before.fixed_slots())
    &&& layer_ops::labels_kept(before.layers, base.layers)
    &&& forall|i: int|
        0 <= i < base.layers.layers@.len() ==> (#[trigger] base.layers.layers@[i]).store is Sealed
    &&& before.ordered() ==> base.ordered()
}

/// The tables once the directories of `snapshot` joined those of `base`.
pub open spec fn dirs_joined(base: FileSync, snapshot: LayerSnapshot) -> DirImport {
    import_dirs_upto(
        DirImport { dirs: base.dir_models(), map: Seq::empty(), stopped: false },
        snapshot.dir_models(),
        snapshot.dirs@.len() as int,
        (base.layers.layers@.len() + 1) as LayerId,
        base.dirs.capacity as nat,
    )
}

/// The tables once its files joined them too.
pub open spec fn files_joined(base: FileSync, snapshot: LayerSnapshot) -> FileImport {
    let joined = dirs_joined(base, snapshot);
    import_files_upto(
        FileImport {
            files: base.file_models(),
            dirs: joined.dirs,
            added: 0,
            stopped: false,
        },
        snapshot.file_models(),
        snapshot.files@.len() as int,
        Place {
            map: joined.map,
            layer: (base.layers.layers@.len() + 1) as LayerId,
            room: base.files.capacity as nat,
            known: base.files.items@.len() as int,
        },
    )
}

/// The new layer on top of those of `base`.
pub open spec fn layer_attached(base: FileSync, new_sync: FileSync, snapshot: LayerSnapshot) -> bool {
    let n = base.layers.layers@.len() as int;
    &&& new_sync.layers.layers@.len() == n + 1
    &&& new_sync.layers.layers@.take(n) == base.layers.layers@
    &&& new_sync.layers.layers@[n] == (IndexLayer {
        label: snapshot.label,
        files_start: base.files.items@.len() as usize,
        dirs_start: base.dirs.items@.len() as usize,
        store: LayerStore::Sealed(snapshot.store),
        sorted: true,
    })
}

/// What attaching says of the rows: those of `base` and the new ones, the new
/// files in `(dir, name)` order.
pub open spec fn rows_attached(base: FileSync, new_sync: FileSync, snapshot: LayerSnapshot) -> bool {
    let m = files_joined(base, snapshot);
    let known = base.files.items@.len() as int;
    &&& new_sync.dir_models() == m.dirs
    &&& exists|order: Seq<usize>| #[trigger]
        sorting::is_permutation(order, m.files.len()) && arrange::moves_within(
            order,
            known,
            m.files.len() as int,
        ) && new_sync.file_models() == sorting::permuted(m.files, order)
    &&& snapshot.layout == SnapshotLayout::Sorted ==> new_sync.file_models() == m.files
}

/// `opened` is `base` with an empty layer for the snapshot on top.
pub open spec fn layer_opened(base: FileSync, opened: FileSync, snapshot: LayerSnapshot) -> bool {
    &&& opened == (FileSync { layers: opened.layers, ..base })
    &&& opened.layers.layers@ == base.layers.layers@.push(
        IndexLayer {
            label: snapshot.label,
            files_start: base.files.items@.len() as usize,
            dirs_start: base.dirs.items@.len() as usize,
            store: LayerStore::Sealed(snapshot.store),
            sorted: false,
        },
    )
}

/// The rows of a snapshot joined those of `base` step by step: its directories,
/// whose places are `map`, then its files, which were put in order at last.
pub open spec fn joined_through(
    base: FileSync,
    after: FileSync,
    snapshot: LayerSnapshot,
    added: usize,
    opened: FileSync,
    with_dirs: FileSync,
    filled: FileSync,
    map: Seq<u32>,
) -> bool {
    let known = base.files.items@.len() as int;
    &&& layer_opened(base, opened, snapshot)
    &&& dirs_imported(opened, with_dirs, snapshot.dir_models(), map)
    &&& files_imported(
        with_dirs,
        filled,
        snapshot.file_models(),
        Place {
            map,
            layer: (base.layers.layers@.len() + 1) as LayerId,
            room: base.files.capacity as nat,
            known,
        },
        added,
    )
    &&& after.dir_models() == filled.dir_models()
    &&& if snapshot.layout == SnapshotLayout::Sorted {
        after.file_models() == filled.file_models()
    } else {
        &&& sync::keys_ascend(after.file_models(), known, after.file_models().len() as int)
        &&& exists|order: Seq<usize>| #[trigger]
            sorting::is_permutation(order, filled.file_models().len()) && arrange::moves_within(
                order,
                known,
                filled.file_models().len() as int,
            ) && after.file_models() == sorting::permuted(filled.file_models(), order)
    }
}

/// The rows of a snapshot joined tables of any order.
pub open spec fn rows_joined(
    base: FileSync,
    after: FileSync,
    snapshot: LayerSnapshot,
    added: usize,
) -> bool {
    exists|opened: FileSync, with_dirs: FileSync, filled: FileSync, map: Seq<u32>| #[trigger]
        joined_through(base, after, snapshot, added, opened, with_dirs, filled, map)
}

/// `snapshot` became the new top `layer`, with `added` files that were not
/// there before.
pub open spec fn is_attached(
    before: FileSync,
    after: FileSync,
    snapshot: LayerSnapshot,
    layer: LayerId,
    added: usize,
) -> bool {
    exists|base: FileSync| #[trigger]
        room_made(before, base) && layer == base.layers.layers@.len() + 1 && layer_attached(
            base,
            after,
            snapshot,
        ) && arrange::same_base(base, after) && rows_joined(base, after, snapshot, added) && (
        before.ordered() && snapshot.ordered() ==> {
            &&& after.ordered()
            &&& rows_attached(base, after, snapshot)
            &&& added == files_joined(base, snapshot).added
        })
}

proof fn lemma_picked_ascend(
    files: Seq<FileModel>,
    known: int,
    rows: Seq<FileModel>,
    src: Seq<int>,
)
    requires
        picked_rows(files, known, rows, src),
        0 <= known <= files.len(),
        sync::keys_ascend(rows, 0, rows.len() as int),
    ensures
        sync::keys_ascend(files, known, files.len() as int),
{
    assert forall|i: int, j: int| known <= i < j < files.len() implies types::key_le(
        (#[trigger] files[i]).key(),
        (#[trigger] files[j]).key(),
    ) by {
        let t = i - known;
        let u = j - known;
        assert(src[t] < src[u]);
        assert(types::key_le(rows[src[t]].key(), rows[src[u]].key()));
        assert(files[known + t].path == rows[src[t]].path);
        assert(files[known + u].path == rows[src[u]].path);
    }
}

/// Marking the top layer sorted keeps an ordered table so, where it is.
proof fn lemma_top_flagged(s: FileSync, t: FileSync)
    requires
        s.wf(),
        t.wf(),
        s.ordered(),
        t == (FileSync { layers: t.layers, ..s }),
        t.layers.layers@.len() == s.layers.layers@.len(),
        forall|i: int|
            0 <= i < s.layers.layers@.len() - 1 ==> #[trigger] t.layers.layers@[i]
                == s.layers.layers@[i],
        t.layers.layers@.last() == (IndexLayer {
            sorted: t.layers.layers@.last().sorted,
            ..s.layers.layers@.last()
        }),
        t.file_models() == s.file_models(),
        t.dir_models() == s.dir_models(),
        sync::keys_ascend(
            s.file_models(),
            s.file_starts().last() as int,
            s.files.items@.len() as int,
        ),
    ensures
        t.ordered(),
{
    let n = s.layers.layers@.len() as int;
    let len = s.files.items@.len() as int;
    assert forall|l: int|
        0 <= l < n && (#[trigger] t.layers.layers@[l]).sorted implies sync::keys_ascend(
        t.file_models(),
        t.layers.file_span(l, len).0,
        t.layers.file_span(l, len).1,
    ) by {
        arrange::lemma_span(s, l);
        arrange::lemma_span(t, l);
        if l < n - 1 {
            assert(s.layers.layers@[l].sorted);
            if l + 1 < n - 1 {
                assert(t.layers.layers@[l + 1] == s.layers.layers@[l + 1]);
            }
        }
    }
}

impl FileSync {
    /// Appends the snapshot as a new sealed layer; files already present in
    /// the index are skipped. Returns the new layer id and files added.
    pub fn append_snapshot(&mut self, snapshot: LayerSnapshot) -> (r: (LayerId, usize))
        requires
            old(self).wf(),
            old(self).can_merge(),
            snapshot.wf(),
            old(self).files.items@.len() + snapshot.files@.len() <= u32::MAX,
            old(self).dirs.items@.len() + snapshot.dirs@.len() <= u32::MAX,
        ensures
            final(self).wf(),
            is_attached(*old(self), *final(self), snapshot, r.0, r.1),
            final(self).files.items@.len() <= old(self).files.items@.len() + snapshot.files@.len(),
            final(self).dirs.items@.len() <= old(self).dirs.items@.len() + snapshot.dirs@.len(),
    {
        let ghost before = *self;
        self.seal_and_make_room();
        let ghost base = *self;
        proof {
            assert(room_made(before, base));
            assert(base.files.items@.len() == base.file_models().len() == before.file_models().len());
            assert(base.dirs.items@.len() == base.dir_models().len() == before.dir_models().len());
        }
        let layer: LayerId = self.layers.top_id() + 1;
        let files_start: usize = self.files.len();
        let ghost kept = snapshot;
        let LayerSnapshot { label, store, files, dirs, layout } = snapshot;
        self.layers.push_sealed(label, store, files_start, self.dirs.len());
        self.layers.set_sorted(layer, false);
        let ghost opened = *self;
        let ghost n = base.layers.layers@.len() as int;
        proof {
            assert(opened.layers.layers@.take(n) =~= base.layers.layers@);
            layer_ops::lemma_opened(base, opened);
            assert(dir_models_of(opened, dirs@) =~= kept.dir_models());
            assert forall|i: int| 0 <= i < dirs@.len() implies sync::named(
                opened.layers,
                opened.chunked_paths,
                opened.top_layer(),
                (#[trigger] dirs@[i]).path,
            ) by {
                assert(kept.store.names_path(kept.dirs@[i].path));
            }
        }
        let map = self.import_dirs(&dirs);
        let ghost with_dirs = *self;
        let ghost drows = kept.dir_models();
        proof {
            assert(file_models_of(with_dirs, files@) =~= kept.file_models());
            assert forall|i: int| 0 <= i < files@.len() implies sync::named(
                with_dirs.layers,
                with_dirs.chunked_paths,
                with_dirs.top_layer(),
                (#[trigger] files@[i]).path,
            ) by {
                assert(kept.store.names_path(kept.files@[i].path));
            }
            if kept.ordered() {
                assert(rows_fit(kept.file_models(), drows));
            }
        }
        let added: usize = self.import_files(&files, &map, files_start, Ghost(drows));
        let ghost filled = *self;
        let ghost known = files_start as int;
        let ghost len = filled.files.items@.len();
        let ghost sound = before.ordered() && kept.ordered();
        let ghost mut order = arrange::unmoved(len);
        proof {
            assert(len == self.files.items.len());
            assert(sorting::permuted(filled.file_models(), order) =~= filled.file_models());
            assert(arrange::moves_within(order, known, len as int));
            assert(filled.file_starts()[n] == known) by {
                assert(filled.layers.layers@[n] == opened.layers.layers@[n]);
            }
            arrange::lemma_span(filled, n);
            assert forall|i: int, j: int|
                known <= i < len && known <= j < len implies (
            #[trigger] filled.files.items@[i]).layer() == (
            #[trigger] filled.files.items@[j]).layer() by {
                arrange::lemma_span_layer(filled, n, i);
                arrange::lemma_span_layer(filled, n, j);
            }
        }
        // Every sealed layer must be binary searchable.
        let is_sorted: bool = match layout {
            SnapshotLayout::Sorted => true,
            SnapshotLayout::BasePartitioned => false,
            SnapshotLayout::Unsorted => false,
        };
        if !is_sorted {
            self.sort_file_range(files_start, self.files.len());
            proof {
                order = choose|order: Seq<usize>| #[trigger]
                    arrange::files_rearranged(filled, *self, order) && arrange::moves_within(
                        order,
                        known,
                        len as int,
                    ) && self.file_models() == sorting::permuted(filled.file_models(), order);
            }
        }
        let ghost arranged = *self;
        assert(arranged.file_models().len() == filled.file_models().len());
        assert(arranged.files.items@.len() == len && arranged.dirs.items@.len()
            == filled.dirs.items@.len());
        proof {
            if sound {
                if is_sorted {
                    let src = choose|src: Seq<int>| #[trigger]
                        picked_rows(filled.file_models(), known, kept.file_models(), src);
                    lemma_picked_ascend(filled.file_models(), known, kept.file_models(), src);
                } else {
                    assert forall|l: int|
                        0 <= l < arranged.layers.layers@.len() && (
                        #[trigger] arranged.layers.layers@[l]).sorted implies sync::keys_ascend(
                        arranged.file_models(),
                        arranged.layers.file_span(l, len as int).0,
                        arranged.layers.file_span(l, len as int).1,
                    ) by {
                        arrange::lemma_span(filled, l);
                        arrange::lemma_span(arranged, l);
                        assert(arranged.file_starts() =~= filled.file_starts());
                        assert(filled.layers.layers@[l].sorted);
                        assert(l < n);
                        assert(filled.file_starts()[l + 1] <= filled.file_starts()[n]);
                        arrange::lemma_keys_unmoved(
                            filled.file_models(),
                            order,
                            known,
                            len as int,
                            filled.file_starts()[l] as int,
                            filled.file_starts()[l + 1] as int,
                        );
                    }
                    arrange::lemma_ordered_rearranged(filled, arranged, order, known, len as int);
                }
            }
        }
        self.layers.set_sorted(layer, true);
        proof {
            compact::lemma_flag_sorted(arranged, *self, n);
            assert(self.layers.layers@.take(n) =~= base.layers.layers@) by {
                assert forall|i: int| 0 <= i < n implies self.layers.layers@[i]
                    == base.layers.layers@[i] by {
                    assert(opened.layers.layers@.take(n)[i] == opened.layers.layers@[i]);
                }
            }
            assert(layer_attached(base, *self, kept));
            assert(layer_opened(base, opened, kept)) by {
                assert(opened.layers.layers@ =~= base.layers.layers@.push(
                    IndexLayer {
                        label: kept.label,
                        files_start: base.files.items@.len() as usize,
                        dirs_start: base.dirs.items@.len() as usize,
                        store: LayerStore::Sealed(kept.store),
                        sorted: false,
                    },
                ));
            }
            assert(sorting::is_permutation(order, filled.file_models().len()));
            assert(joined_through(
                base,
                *self,
                kept,
                added,
                opened,
                with_dirs,
                filled,
                map@,
            ));
            if sound {
                lemma_top_flagged(arranged, *self);
                assert(filled.file_models() == files_joined(base, kept).files);
                assert(rows_attached(base, *self, kept)) by {
                    assert(sorting::is_permutation(order, filled.file_models().len()));
                }
            }
        }
        (layer, added)
    }
}

} // verus!
