//! Copying a layer out of the index.

use crate::bytes;
use crate::bytes::Rank;
use crate::file_picker::entries;
use crate::file_picker::sync;
use crate::file_picker::sync::{read_path, DirModel, FileModel, FileSync};
use crate::index::codec::{LayerSnapshot, SnapshotLayout};
use crate::index::layers;
use crate::index::layers::{LayerId, LayerStack};
use crate::index::path_index::SlotPaths;
use crate::index::slot_map;
use crate::index::snapshot;
use crate::index::snapshot::last_segment_offset;
use crate::simd_path;
use crate::simd_path::{ChunkedPathStore, ChunkedPathStoreBuilder};
use crate::sorting;
use crate::sorting::Ranking;
use crate::types::{DirItem, FileItem};
use ahash::{AHashMap, RandomState};
use vstd::prelude::*;

verus! {

/// The live slots from `start` up to `end`, in order.
pub open spec fn live_slots(files: Seq<FileModel>, start: int, end: int) -> Seq<int>
    decreases end - start,
{
    if start >= end {
        Seq::empty()
    } else if files[end - 1].deleted {
        live_slots(files, start, end - 1)
    } else {
        live_slots(files, start, end - 1).push(end - 1)
    }
}

pub proof fn lemma_live_slots(files: Seq<FileModel>, start: int, end: int)
    requires
        0 <= start <= end <= files.len(),
    ensures
        live_slots(files, start, end).len() <= end - start,
        forall|t: int|
            0 <= t < live_slots(files, start, end).len() ==> start <= (#[trigger] live_slots(
                files,
                start,
                end,
            )[t]) < end && !files[live_slots(files, start, end)[t]].deleted,
        forall|i: int|
            start <= i < end && !(#[trigger] files[i]).deleted ==> live_slots(
                files,
                start,
                end,
            ).contains(i),
        forall|t: int, u: int|
            0 <= t < u < live_slots(files, start, end).len() ==> (#[trigger] live_slots(
                files,
                start,
                end,
            )[t]) < (#[trigger] live_slots(files, start, end)[u]),
    decreases end - start,
{
    if start < end {
        lemma_live_slots(files, start, end - 1);
        let rest = live_slots(files, start, end - 1);
        let all = live_slots(files, start, end);
        assert forall|i: int| start <= i < end && !(#[trigger] files[i]).deleted implies all.contains(
            i,
        ) by {
            if i == end - 1 {
                assert(all[all.len() - 1] == i);
            } else {
                assert(rest.contains(i));
                let t = choose|t: int| 0 <= t < rest.len() && rest[t] == i;
                assert(all[t] == i);
            }
        }
    }
}

/// Directories picked from the table, each once, in the order in which they
/// were first asked for.
pub struct LocalDirs {
    pub globals: Vec<u32>,
    pub local_of: AHashMap<u64, u32, RandomState>,
}

pub proof fn lemma_distinct_bound(s: Seq<u32>, n: nat)
    requires
        forall|x: int| 0 <= x < s.len() ==> (#[trigger] s[x]) < n,
        forall|x: int, y: int| 0 <= x < y < s.len() ==> #[trigger] s[x] != #[trigger] s[y],
    ensures
        s.len() <= n,
    decreases n,
{
    if n == 0 {
        if s.len() > 0 {
            assert(s[0] < n);
        }
    } else {
        let top = (n - 1) as u32;
        if n - 1 <= u32::MAX && s.contains(top) {
            let at = choose|at: int| 0 <= at < s.len() && s[at] == top;
            let rest = s.remove(at);
            assert forall|x: int| 0 <= x < rest.len() implies (#[trigger] rest[x]) < n - 1 by {
                let k = if x < at {
                    x
                } else {
                    x + 1
                };
                assert(rest[x] == s[k]);
                if k < at {
                    assert(s[k] != s[at]);
                } else {
                    assert(s[at] != s[k]);
                }
            }
            assert forall|x: int, y: int| 0 <= x < y < rest.len() implies #[trigger] rest[x]
                != #[trigger] rest[y] by {
                let k = if x < at {
                    x
                } else {
                    x + 1
                };
                let j = if y < at {
                    y
                } else {
                    y + 1
                };
                assert(s[k] != s[j]);
            }
            lemma_distinct_bound(rest, (n - 1) as nat);
        } else {
            assert forall|x: int| 0 <= x < s.len() implies (#[trigger] s[x]) < n - 1 by {
                if n - 1 <= u32::MAX {
                    assert(s[x] != top);
                }
            }
            lemma_distinct_bound(s, (n - 1) as nat);
        }
    }
}

impl LocalDirs {
    pub open spec fn wf(&self, n: nat) -> bool {
        let map = slot_map::slots(self.local_of);
        &&& forall|x: int| 0 <= x < self.globals@.len() ==> (#[trigger] self.globals@[x]) < n
        &&& forall|x: int, y: int|
            0 <= x < y < self.globals@.len() ==> #[trigger] self.globals@[x]
                != #[trigger] self.globals@[y]
        &&& forall|x: int|
            0 <= x < self.globals@.len() ==> map.contains_key(
                (#[trigger] self.globals@[x]) as u64,
            ) && map[self.globals@[x] as u64] == x
        &&& forall|k: u64| #[trigger]
            map.contains_key(k) ==> map[k] < self.globals@.len() && self.globals@[map[k] as int]
                == k
    }

    fn new() -> (r: Self)
        ensures
            r.wf(0),
            r.globals@.len() == 0,
    {
        LocalDirs { globals: Vec::new(), local_of: slot_map::new_map() }
    }

    /// The place of directory `global`, which is added if it has none.
    fn register(&mut self, global: u32, n: Ghost<nat>) -> (r: u32)
        requires
            old(self).wf(n@),
            global < n@ <= u32::MAX,
        ensures
            final(self).wf(n@),
            old(self).globals@.is_prefix_of(final(self).globals@),
            final(self).globals@ == old(self).globals@ || final(self).globals@ == old(
                self).globals@.push(global),
            r < final(self).globals@.len(),
            final(self).globals@[r as int] == global,
    {
        if let Some(local) = slot_map::get_slot(&self.local_of, global as u64) {
            assert(self.globals@.take(self.globals@.len() as int) =~= self.globals@);
            return local;
        }
        proof {
            lemma_distinct_bound(self.globals@, n@);
            assert forall|x: int| 0 <= x < self.globals@.len() implies (
            #[trigger] self.globals@[x]) != global by {}
        }
        let ghost before = self.globals@;
        proof {
            let pushed = before.push(global);
            assert forall|x: int, y: int| 0 <= x < y < pushed.len() implies #[trigger] pushed[x]
                != #[trigger] pushed[y] by {
                if y < before.len() {
                    assert(before[x] != before[y]);
                } else {
                    assert(before[x] != global);
                }
            }
            lemma_distinct_bound(pushed, n@);
        }
        let local: u32 = self.globals.len() as u32;
        self.globals.push(global);
        slot_map::insert_vacant(&mut self.local_of, global as u64, local);
        proof {
            assert(self.globals@.take(before.len() as int) =~= before);
            let map = slot_map::slots(self.local_of);
            assert forall|x: int| 0 <= x < self.globals@.len() implies map.contains_key(
                (#[trigger] self.globals@[x]) as u64,
            ) && map[self.globals@[x] as u64] == x by {
                if x < before.len() {
                    assert(self.globals@[x] == before[x]);
                }
            }
            assert forall|x: int, y: int| 0 <= x < y < self.globals@.len() implies #[trigger] self.globals@[x]
                != #[trigger] self.globals@[y] by {
                if y < before.len() {
                    assert(before[x] != before[y]);
                } else {
                    assert(before[x] != global);
                }
            }
        }
        local
    }
}

/// Byte order of directories of the table.
pub struct TableDirRanking<'a> {
    pub dirs: &'a Vec<DirItem>,
    pub layers: &'a LayerStack,
    pub base: &'a Option<ChunkedPathStore>,
}

impl<'a> TableDirRanking<'a> {
    pub open spec fn text(&self, d: u32) -> Seq<u8> {
        sync::text_in(
            *self.layers,
            *self.base,
            self.dirs@[d as int].layer(),
            self.dirs@[d as int].path,
        )
    }
}

impl<'a> Ranking<u32> for TableDirRanking<'a> {
    open spec fn admits(&self, d: u32) -> bool {
        d < self.dirs@.len() && sync::named(
            *self.layers,
            *self.base,
            self.dirs@[d as int].layer(),
            self.dirs@[d as int].path,
        )
    }

    open spec fn le(&self, a: u32, b: u32) -> bool {
        bytes::lex_le(self.text(a), self.text(b))
    }

    proof fn total(&self, a: u32, b: u32) {
        bytes::lemma_lex_total(self.text(a), self.text(b));
    }

    proof fn transitive(&self, a: u32, b: u32, c: u32) {
        bytes::lemma_lex_transitive(self.text(a), self.text(b), self.text(c));
    }

    fn order(&self, a: &u32, b: &u32) -> Rank {
        let da = &self.dirs[*a as usize];
        let db = &self.dirs[*b as usize];
        let ta = read_path(self.layers, self.base, da.layer_id(), &da.path);
        let tb = read_path(self.layers, self.base, db.layer_id(), &db.path);
        proof {
            bytes::lemma_lex_total(ta@, tb@);
            if bytes::lex_le(ta@, tb@) && bytes::lex_le(tb@, ta@) {
                bytes::lemma_lex_antisymmetric(ta@, tb@);
            }
            bytes::lemma_lex_reflexive(ta@);
        }
        bytes::lex_order(ta.as_slice(), tb.as_slice())
    }
}

/// Directory `d` belongs to an export of `layer`: it is its own, or the parent
/// of one of its live files.
pub open spec fn exports_dir(sync: FileSync, layer: LayerId, d: int) -> bool {
    let (dir_start, dir_end) = sync.layers.dir_span(layer - 1, sync.dirs.items@.len() as int);
    let (start, end) = sync.layers.file_span(layer - 1, sync.files.items@.len() as int);
    ||| dir_start <= d < dir_end
    ||| exists|i: int|
        start <= i < end && !(#[trigger] sync.file_models()[i]).deleted
            && sync.file_models()[i].parent == d
}

/// Index table entries that all directories of the table take.
pub open spec fn dir_table_costs(dirs: Seq<DirModel>) -> Seq<nat> {
    Seq::new(dirs.len(), |i: int| simd_path::chunk_cost(dirs[i].path.len()))
}

/// A file of the export is a live file of the layer, in layer 0 and with the
/// same directory.
pub open spec fn exported_file(
    sync: FileSync,
    s: LayerSnapshot,
    t: int,
    slot: int,
) -> bool {
    let f = sync.file_models()[slot];
    &&& s.file_models()[t] == (FileModel {
        layer: 0,
        parent: s.files@[t].parent_dir_index,
        ..f
    })
    &&& s.dir_text(s.files@[t].parent_dir_index as int) == sync.dir_text(f.parent as int)
}

/// What an export of an overlay holds.
pub open spec fn is_export(sync: FileSync, layer: LayerId, s: LayerSnapshot) -> bool {
    let (start, end) = sync.layers.file_span(layer - 1, sync.files.items@.len() as int);
    let live = live_slots(sync.file_models(), start, end);
    &&& layers::label_text(s.label) == layers::label_text(sync.layers.layers@[layer - 1].label)
    &&& s.layout == if sync.layers.layers@[layer - 1].sorted {
        SnapshotLayout::Sorted
    } else {
        SnapshotLayout::Unsorted
    }
    &&& s.files@.len() == live.len()
    &&& forall|t: int|
        0 <= t < s.files@.len() ==> exported_file(sync, s, t, #[trigger] live[t])
    &&& forall|x: int, y: int|
        0 <= x < y < s.dirs@.len() ==> bytes::lex_le(
            #[trigger] s.dir_text(x),
            #[trigger] s.dir_text(y),
        )
    &&& exists|globals: Seq<u32>| #[trigger] exported_dirs(sync, layer, s, globals)
}

/// All of these directories belong to `layer`.
pub open spec fn all_own(sync: FileSync, layer: LayerId, globals: Seq<u32>) -> bool {
    forall|x: int|
        0 <= x < globals.len() ==> sync.dir_models()[#[trigger] globals[x] as int].layer == layer
}

/// A directory of an export: as it is in the table where all of them are the
/// layer's own, and as new otherwise.
pub open spec fn exported_dir(
    sync: FileSync,
    layer: LayerId,
    globals: Seq<u32>,
    x: int,
) -> DirModel {
    let d = sync.dir_models()[globals[x] as int];
    if all_own(sync, layer, globals) {
        DirModel { layer: 0, deleted: false, ..d }
    } else {
        entries::fresh_dir(d.path, 0)
    }
}

/// The directories of the export are those of the table at `globals`, each
/// once, and all that belong to it.
pub open spec fn exported_dirs(
    sync: FileSync,
    layer: LayerId,
    s: LayerSnapshot,
    globals: Seq<u32>,
) -> bool {
    &&& globals.len() == s.dirs@.len()
    &&& forall|x: int, y: int|
        0 <= x < y < globals.len() ==> #[trigger] globals[x] != #[trigger] globals[y]
    &&& forall|x: int|
        0 <= x < globals.len() ==> {
            &&& (#[trigger] globals[x]) < sync.dirs.items@.len()
            &&& exports_dir(sync, layer, globals[x] as int)
            &&& s.dir_models()[x] == exported_dir(sync, layer, globals, x)
        }
    &&& forall|d: int| #[trigger]
        exports_dir(sync, layer, d) && 0 <= d < sync.dirs.items@.len() ==> globals.contains(
            d as u32,
        )
}


/// `copy` is `file` in layer 0, with the directory at place `local`.
pub open spec fn copied_file(file: FileItem, copy: FileItem, local: u32) -> bool {
    &&& copy == (FileItem { parent_dir_index: local, flags: copy.flags, ..file })
    &&& copy.layer() == 0
    &&& copy.deleted() == file.deleted()
    &&& copy.binary() == file.binary()
}

/// The files of a layer, and the directories they and the layer need.
pub open spec fn collected(
    sync: FileSync,
    layer: LayerId,
    upto: int,
    globals: Seq<u32>,
    files: Seq<FileItem>,
) -> bool {
    let (dir_start, dir_end) = sync.layers.dir_span(layer - 1, sync.dirs.items@.len() as int);
    let (start, end) = sync.layers.file_span(layer - 1, sync.files.items@.len() as int);
    let live = live_slots(sync.file_models(), start, upto);
    &&& forall|d: int|
        dir_start <= d < dir_end ==> globals.contains(#[trigger] (d as u32))
    &&& forall|x: int|
        0 <= x < globals.len() ==> exports_dir(sync, layer, #[trigger] globals[x] as int)
    &&& files.len() == live.len()
    &&& forall|t: int|
        0 <= t < files.len() ==> {
            &&& copied_file(
                sync.files.items@[live[t]],
                #[trigger] files[t],
                files[t].parent_dir_index,
            )
            &&& files[t].parent_dir_index < globals.len()
            &&& globals[files[t].parent_dir_index as int]
                == sync.files.items@[live[t]].parent_dir_index
        }
}

impl FileSync {
    fn collect_layer(&self, layer: LayerId) -> (r: (LocalDirs, Vec<FileItem>))
        requires
            self.wf(),
            self.layers.has_id(layer),
        ensures
            r.0.wf(self.dirs.items@.len()),
            collected(
                *self,
                layer,
                self.layers.file_span(layer - 1, self.files.items@.len() as int).1,
                r.0.globals@,
                r.1@,
            ),
    {
        let ghost n = self.dirs.items@.len();
        let (start, end) = match self.layers.file_range(layer, self.files.len()) {
            Some(range) => range,
            None => (0, 0),
        };
        let (dir_start, dir_end) = match self.layers.dir_range(layer, self.dirs.len()) {
            Some(range) => range,
            None => (0, 0),
        };
        let mut locals = LocalDirs::new();
        let mut files: Vec<FileItem> = Vec::new();
        let mut d: usize = dir_start;
        while d < dir_end
            invariant
                self.wf(),
                n == self.dirs.items@.len(),
                (dir_start as int, dir_end as int) == self.layers.dir_span(
                    layer - 1,
                    self.dirs.items@.len() as int,
                ),
                dir_start <= d <= dir_end <= n,
                locals.wf(n),
                forall|k: int|
                    dir_start <= k < d ==> locals.globals@.contains(#[trigger] (k as u32)),
                forall|x: int|
                    0 <= x < locals.globals@.len() ==> exports_dir(
                        *self,
                        layer,
                        #[trigger] locals.globals@[x] as int,
                    ),
            decreases dir_end - d,
        {
            let ghost before = locals.globals@;
            let local: u32 = locals.register(d as u32, Ghost(n));
            proof {
                assert forall|k: int| dir_start <= k < d + 1 implies locals.globals@.contains(
                    #[trigger] (k as u32),
                ) by {
                    if k < d {
                        let x = choose|x: int| 0 <= x < before.len() && before[x] == k as u32;
                        assert(locals.globals@[x] == k as u32);
                    } else {
                        assert(locals.globals@[local as int] == k as u32);
                    }
                }
                assert forall|x: int| 0 <= x < locals.globals@.len() implies exports_dir(
                    *self,
                    layer,
                    #[trigger] locals.globals@[x] as int,
                ) by {
                    if x < before.len() {
                        assert(locals.globals@[x] == before[x]);
                    }
                }
            }
            d += 1;
        }
        let mut i: usize = start;
        while i < end
            invariant
                self.wf(),
                n == self.dirs.items@.len(),
                (start as int, end as int) == self.layers.file_span(
                    layer - 1,
                    self.files.items@.len() as int,
                ),
                start <= i <= end <= self.files.items@.len(),
                locals.wf(n),
                collected(*self, layer, i as int, locals.globals@, files@),
            decreases end - i,
        {
            let file: FileItem = self.files.items[i];
            assert(self.file_ok(i as int));
            let ghost live = live_slots(self.file_models(), start as int, i as int);
            let ghost next = live_slots(self.file_models(), start as int, i + 1);
            if !file.is_deleted() {
                let ghost before = locals.globals@;
                let ghost kept = files@;
                let local: u32 = locals.register(file.parent_dir_index, Ghost(n));
                let mut copy: FileItem = file;
                copy.parent_dir_index = local;
                copy.set_layer(0);
                files.push(copy);
                proof {
                    assert(next == live.push(i as int));
                    assert(self.file_models()[i as int].parent == file.parent_dir_index);
                    assert(exports_dir(*self, layer, file.parent_dir_index as int));
                    assert forall|x: int| 0 <= x < locals.globals@.len() implies exports_dir(
                        *self,
                        layer,
                        #[trigger] locals.globals@[x] as int,
                    ) by {
                        if x < before.len() {
                            assert(locals.globals@[x] == before[x]);
                        }
                    }
                    let (dir_start, dir_end) = self.layers.dir_span(layer - 1, n as int);
                    assert forall|d: int|
                        dir_start <= d < dir_end implies locals.globals@.contains(
                        #[trigger] (d as u32),
                    ) by {
                        assert(before.contains(d as u32));
                        let x = choose|x: int| 0 <= x < before.len() && before[x] == d as u32;
                        assert(locals.globals@[x] == d as u32);
                    }
                    assert forall|t: int| 0 <= t < files@.len() implies {
                        &&& copied_file(
                            self.files.items@[next[t]],
                            #[trigger] files@[t],
                            files@[t].parent_dir_index,
                        )
                        &&& files@[t].parent_dir_index < locals.globals@.len()
                        &&& locals.globals@[files@[t].parent_dir_index as int]
                            == self.files.items@[next[t]].parent_dir_index
                    } by {
                        if t < kept.len() {
                            assert(files@[t] == kept[t]);
                            assert(next[t] == live[t]);
                        }
                    }
                }
            } else {
                assert(next == live);
            }
            i += 1;
        }
        (locals, files)
    }

    /// The directories at `globals`, copied next to the arena `store` of
    /// `layer`: as they are where all of them belong to the layer, written
    /// anew behind its paths otherwise.
    fn copy_dirs(&self, layer: LayerId, globals: &Vec<u32>, store: ChunkedPathStore) -> (r: (
        ChunkedPathStore,
        Vec<DirItem>,
    ))
        requires
            self.wf(),
            self.layers.has_id(layer),
            store.wf(),
            self.layers.layers@[layer - 1].store.arena() matches Some(arena) ==> store.same_as(
                arena,
            ),
            forall|x: int|
                0 <= x < globals@.len() ==> (#[trigger] globals@[x]) < self.dirs.items@.len(),
            store.slots() + sorting::total(
                Seq::new(
                    globals@.len(),
                    |x: int| dir_table_costs(self.dir_models())[globals@[x] as int],
                ),
            ) <= u32::MAX,
        ensures
            r.0.wf(),
            r.0.extends(store),
            r.1@.len() == globals@.len(),
            forall|x: int|
                0 <= x < globals@.len() ==> {
                    &&& r.0.names_path((#[trigger] r.1@[x]).path)
                    &&& sync::dir_model(r.1@[x], r.0.path(r.1@[x].path)) == exported_dir(
                        *self,
                        layer,
                        globals@,
                        x,
                    )
                },
    {
        let ghost costs = Seq::new(
            globals@.len(),
            |x: int| dir_table_costs(self.dir_models())[globals@[x] as int],
        );
        let ghost start = store;
        let mut foreign: bool = false;
        let mut i: usize = 0;
        while i < globals.len() && !foreign
            invariant
                i <= globals@.len(),
                forall|x: int|
                    0 <= x < globals@.len() ==> (#[trigger] globals@[x]) < self.dirs.items@.len(),
                !foreign ==> forall|x: int|
                    0 <= x < i ==> self.dirs.items@[#[trigger] globals@[x] as int].layer()
                        == layer,
                foreign ==> i > 0 && self.dirs.items@[globals@[i - 1] as int].layer() != layer,
            decreases globals@.len() - i,
        {
            if self.dirs.items[globals[i] as usize].layer_id() != layer {
                foreign = true;
            }
            i += 1;
        }
        proof {
            if foreign {
                assert(self.dir_models()[globals@[i - 1] as int].layer != layer);
            } else {
                assert(all_own(*self, layer, globals@));
            }
        }
        let mut dirs: Vec<DirItem> = Vec::new();
        if foreign {
            let mut builder = ChunkedPathStoreBuilder::from_store(store, 0);
            let mut i: usize = 0;
            proof {
                assert(costs.take(0) =~= Seq::empty());
                assert(start.chunks@.take(start.chunks@.len() as int) =~= start.chunks@);
                assert(start.indices@.take(start.indices@.len() as int) =~= start.indices@);
            }
            while i < globals.len()
                invariant
                    self.wf(),
                    i <= globals@.len(),
                    forall|x: int|
                        0 <= x < globals@.len() ==> (#[trigger] globals@[x])
                            < self.dirs.items@.len(),
                    costs == Seq::new(
                        globals@.len(),
                        |x: int| dir_table_costs(self.dir_models())[globals@[x] as int],
                    ),
                    start.slots() + sorting::total(costs) <= u32::MAX,
                    builder.wf(),
                    builder.store.extends(start),
                    builder.store.slots() <= start.slots() + sorting::total(
                        costs.take(i as int),
                    ),
                    dirs@.len() == i,
                    forall|x: int|
                        0 <= x < i ==> {
                            &&& builder.store.names_path((#[trigger] dirs@[x]).path)
                            &&& sync::dir_model(dirs@[x], builder.store.path(dirs@[x].path))
                                == entries::fresh_dir(self.dir_text(globals@[x] as int), 0)
                        },
                decreases globals@.len() - i,
            {
                let ghost before = builder.store;
                let d: usize = globals[i] as usize;
                assert(self.dir_ok(d as int));
                let text = self.read_dir(d);
                proof {
                    sorting::lemma_total_step(costs, i as int);
                    sorting::lemma_total_prefix(costs, i + 1);
                }
                let handle = builder.add_bytes(text.as_slice(), text.len() as u16);
                let offset: u16 = last_segment_offset(text.as_slice());
                let item = DirItem::new(handle, offset);
                proof {
                    bytes::lemma_cut_text(text@, offset as int);
                    assert(builder.store.path(item.path) =~= builder.store.path(handle));
                    assert forall|x: int| 0 <= x < i implies {
                        &&& builder.store.names_path((#[trigger] dirs@[x]).path)
                        &&& sync::dir_model(dirs@[x], builder.store.path(dirs@[x].path))
                            == entries::fresh_dir(self.dir_text(globals@[x] as int), 0)
                    } by {
                        simd_path::lemma_paths_survive_growth(
                            before,
                            builder.store,
                            dirs@[x].path,
                        );
                    }
                }
                dirs.push(item);
                i += 1;
            }
            (builder.finish(), dirs)
        } else {
            let mut i: usize = 0;
            while i < globals.len()
                invariant
                    self.wf(),
                    self.layers.has_id(layer),
                    i <= globals@.len(),
                    forall|x: int|
                        0 <= x < globals@.len() ==> (#[trigger] globals@[x])
                            < self.dirs.items@.len() && self.dirs.items@[globals@[x] as int].layer()
                            == layer,
                    store.wf(),
                    self.layers.layers@[layer - 1].store.arena() matches Some(arena)
                        ==> store.same_as(arena),
                    dirs@.len() == i,
                    forall|x: int|
                        0 <= x < i ==> {
                            &&& store.names_path((#[trigger] dirs@[x]).path)
                            &&& sync::dir_model(dirs@[x], store.path(dirs@[x].path)) == (DirModel {
                                layer: 0,
                                deleted: false,
                                ..self.dir_models()[globals@[x] as int]
                            })
                        },
                decreases globals@.len() - i,
            {
                let d: usize = globals[i] as usize;
                assert(self.dir_ok(d as int));
                let mut dir: DirItem = self.dirs.items[d];
                dir.set_layer(0);
                dir.set_deleted(false);
                dirs.push(dir);
                i += 1;
            }
            proof {
                assert(store.chunks@.take(store.chunks@.len() as int) =~= store.chunks@);
                assert(store.indices@.take(store.indices@.len() as int) =~= store.indices@);
            }
            (store, dirs)
        }
    }
}


impl FileSync {
    /// Index table entries in use by a layer.
    pub open spec fn layer_slots(&self, layer: LayerId) -> nat {
        match self.layers.layers@[layer - 1].store.arena() {
            Some(store) => store.slots(),
            None => 0,
        }
    }

    /// An export of `layer` fits one arena.
    pub open spec fn can_export(&self, layer: LayerId) -> bool {
        self.layers.has_id(layer) ==> self.layer_slots(layer) + sorting::total(
            dir_table_costs(self.dir_models()),
        ) <= u32::MAX
    }

    /// Live files of `layer` (0 = base) as a self-contained snapshot. `None`
    /// for unknown ids or when the base has not been scanned yet.
    pub fn export_layer(&self, layer: LayerId) -> (r: Option<LayerSnapshot>)
        requires
            self.wf(),
            self.can_export(layer),
        ensures
            match r {
                Some(s) => s.wf() && if layer == 0 {
                    self.chunked_paths is Some && is_base_export(*self, s)
                } else {
                    self.layers.has_id(layer) && is_export(*self, layer, s)
                },
                None => if layer == 0 {
                    self.chunked_paths is None
                } else {
                    !self.layers.has_id(layer)
                },
            },
    {
        if layer == 0 {
            return self.export_base();
        }
        let arena = match self.layers.store_snapshot(layer) {
            Some(arena) => arena,
            None => {
                return None;
            },
        };
        let (locals, files) = self.collect_layer(layer);
        let ghost first = files@;
        let ranking = TableDirRanking {
            dirs: &self.dirs.items,
            layers: &self.layers,
            base: &self.chunked_paths,
        };
        assert forall|x: int| 0 <= x < locals.globals@.len() implies ranking.admits(
            #[trigger] locals.globals@[x],
        ) by {
            assert(self.dir_ok(locals.globals@[x] as int));
        }
        let order = sorting::stable_order(locals.globals.as_slice(), &ranking);
        let globals = sorting::permute(locals.globals.as_slice(), &order);
        proof {
            sorting::lemma_stable_order_ranks(locals.globals@, ranking, order@);
            lemma_distinct_bound(locals.globals@, self.dirs.items@.len());
        }
        let places = inverse(&order);
        let files = place_files(files, &places);
        let ghost copy = arena;
        proof {
            lemma_sorted_globals(*self, locals.globals@, order@, globals@);
        }
        let (store, dirs) = self.copy_dirs(layer, &globals, arena);
        let sorted: bool = self.layers.is_sorted(layer);
        let s = LayerSnapshot {
            label: self.layers.label(layer),
            store,
            files,
            dirs,
            layout: if sorted {
                SnapshotLayout::Sorted
            } else {
                SnapshotLayout::Unsorted
            },
        };
        proof {
            lemma_is_export(*self, layer, first, locals.globals@, order@, globals@, copy, s);
        }
        Some(s)
    }

    /// The live files of the base scan, and all its directories.
    fn export_base(&self) -> (r: Option<LayerSnapshot>)
        requires
            self.wf(),
        ensures
            match r {
                Some(s) => s.wf() && self.chunked_paths is Some && is_base_export(*self, s),
                None => self.chunked_paths is None,
            },
    {
        let store = match &self.chunked_paths {
            Some(store) => store.copy(),
            None => {
                return None;
            },
        };
        proof {
            entries::lemma_starts_bound(*self);
        }
        let mut files: Vec<FileItem> = Vec::new();
        let mut i: usize = 0;
        while i < self.base_count
            invariant
                self.wf(),
                i <= self.base_count <= self.files.items@.len(),
                base_collected(*self, i as int, files@),
            decreases self.base_count - i,
        {
            let file: FileItem = self.files.items[i];
            let ghost live = live_slots(self.file_models(), 0, i as int);
            let ghost kept = files@;
            if !file.is_deleted() {
                files.push(file);
                proof {
                    let next = live_slots(self.file_models(), 0, i + 1);
                    assert(next == live.push(i as int));
                    assert forall|t: int| 0 <= t < files@.len() implies (#[trigger] files@[t])
                        == self.files.items@[next[t]] && 0 <= next[t] < i + 1 by {
                        if t < kept.len() {
                            assert(files@[t] == kept[t]);
                            assert(next[t] == live[t]);
                        }
                    }
                    assert(base_collected(*self, i + 1, files@));
                }
            } else {
                assert(live_slots(self.file_models(), 0, i + 1) == live);
                assert(base_collected(*self, i + 1, files@));
            }
            i += 1;
        }
        let mut dirs: Vec<DirItem> = Vec::new();
        let mut i: usize = 0;
        while i < self.base_dirs_count
            invariant
                self.wf(),
                i <= self.base_dirs_count <= self.dirs.items@.len(),
                dirs@.len() == i,
                forall|x: int|
                    0 <= x < i ==> {
                        &&& (#[trigger] dirs@[x]).same_but_flags(self.dirs.items@[x])
                        &&& !dirs@[x].deleted()
                        &&& dirs@[x].layer() == self.dirs.items@[x].layer()
                    },
            decreases self.base_dirs_count - i,
        {
            let mut dir: DirItem = self.dirs.items[i];
            dir.set_deleted(false);
            dirs.push(dir);
            i += 1;
        }
        let s = LayerSnapshot {
            label: None,
            store,
            files,
            dirs,
            layout: SnapshotLayout::BasePartitioned,
        };
        proof {
            lemma_is_base_export(*self, s);
        }
        Some(s)
    }
}

/// `files` are the live ones among the first `upto`.
pub open spec fn base_collected(sync: FileSync, upto: int, files: Seq<FileItem>) -> bool {
    let live = live_slots(sync.file_models(), 0, upto);
    &&& files.len() == live.len()
    &&& forall|t: int|
        0 <= t < files.len() ==> (#[trigger] files[t]) == sync.files.items@[live[t]] && 0
            <= live[t] < upto
}

/// What an export of the base scan holds.
pub open spec fn is_base_export(sync: FileSync, s: LayerSnapshot) -> bool {
    let live = live_slots(sync.file_models(), 0, sync.base_count as int);
    &&& s.label is None
    &&& s.layout == SnapshotLayout::BasePartitioned
    &&& s.files@.len() == live.len()
    &&& forall|t: int|
        0 <= t < s.files@.len() ==> s.file_models()[t] == sync.file_models()[#[trigger] live[t]]
    &&& s.dirs@.len() == sync.base_dirs_count
    &&& forall|x: int|
        0 <= x < s.dirs@.len() ==> #[trigger] s.dir_models()[x] == (DirModel {
            deleted: false,
            ..sync.dir_models()[x]
        })
}

proof fn lemma_is_base_export(sync: FileSync, s: LayerSnapshot)
    requires
        sync.wf(),
        sync.chunked_paths is Some,
        s.store.wf(),
        s.store.same_as(sync.chunked_paths->0),
        s.label is None,
        s.layout == SnapshotLayout::BasePartitioned,
        base_collected(sync, sync.base_count as int, s.files@),
        s.dirs@.len() == sync.base_dirs_count,
        forall|x: int|
            0 <= x < s.dirs@.len() ==> {
                &&& (#[trigger] s.dirs@[x]).same_but_flags(sync.dirs.items@[x])
                &&& !s.dirs@[x].deleted()
                &&& s.dirs@[x].layer() == sync.dirs.items@[x].layer()
            },
    ensures
        s.wf(),
        is_base_export(sync, s),
{
    let live = live_slots(sync.file_models(), 0, sync.base_count as int);
    entries::lemma_starts_bound(sync);
    lemma_live_slots(sync.file_models(), 0, sync.base_count as int);
    assert forall|t: int| 0 <= t < s.files@.len() implies s.store.names_path(
        (#[trigger] s.files@[t]).path,
    ) && s.files@[t].parent_dir_index < s.dirs@.len() && !s.files@[t].deleted()
        && s.files@[t].layer() == 0 && s.file_models()[t] == sync.file_models()[live[t]] by {
        assert(sync.file_ok(live[t]));
        lemma_base_slot(sync, live[t]);
        assert(s.files@[t] == sync.files.items@[live[t]]);
    }
    assert forall|x: int| 0 <= x < s.dirs@.len() implies s.store.names_path(
        (#[trigger] s.dirs@[x]).path,
    ) && s.dirs@[x].layer() == 0 && s.dir_models()[x] == (DirModel {
        deleted: false,
        ..sync.dir_models()[x]
    }) by {
        assert(sync.dir_ok(x));
        lemma_base_dir_slot(sync, x);
        assert(s.dirs@[x].same_but_flags(sync.dirs.items@[x]));
    }
    assert forall|t: int| 0 <= t < s.files@.len() implies s.file_models()[t]
        == sync.file_models()[#[trigger] live[t]] by {
        assert(s.store.names_path(s.files@[t].path));
    }
}

/// Slots of the base scan hold rows of layer 0.
pub proof fn lemma_base_slot(sync: FileSync, i: int)
    requires
        sync.wf(),
        0 <= i < sync.base_count,
        i < sync.files.items@.len(),
    ensures
        sync.files.items@[i].layer() == 0,
{
    assert(sync.file_ok(i));
    let l = sync.files.items@[i].layer() as int;
    if l > 0 {
        assert(sync.file_starts()[0] <= sync.file_starts()[l - 1]);
    }
}

pub proof fn lemma_base_dir_slot(sync: FileSync, i: int)
    requires
        sync.wf(),
        0 <= i < sync.base_dirs_count,
        i < sync.dirs.items@.len(),
    ensures
        sync.dirs.items@[i].layer() == 0,
{
    assert(sync.dir_ok(i));
    let l = sync.dirs.items@[i].layer() as int;
    if l > 0 {
        assert(sync.dir_starts()[0] <= sync.dir_starts()[l - 1]);
    }
}

/// For each number below the length, where `order` lists it.
fn inverse(order: &Vec<usize>) -> (places: Vec<u32>)
    requires
        sorting::is_permutation(order@, order@.len()),
        order@.len() <= u32::MAX,
    ensures
        places@.len() == order@.len(),
        forall|y: int|
            0 <= y < places@.len() ==> (#[trigger] places@[y]) < order@.len()
                && order@[places@[y] as int] == y,
{
    let mut places: Vec<u32> = vec![0u32; order.len()];
    let mut i: usize = 0;
    while i < order.len()
        invariant
            i <= order@.len() <= u32::MAX,
            sorting::is_permutation(order@, order@.len()),
            places@.len() == order@.len(),
            forall|x: int| 0 <= x < i ==> places@[#[trigger] order@[x] as int] == x,
        decreases order@.len() - i,
    {
        let at: usize = order[i];
        places[at] = i as u32;
        assert forall|x: int| 0 <= x < i implies places@[#[trigger] order@[x] as int] == x by {
            assert(order@[x] != order@[i as int]);
        }
        i += 1;
    }
    assert forall|y: int| 0 <= y < places@.len() implies (#[trigger] places@[y]) < order@.len()
        && order@[places@[y] as int] == y by {
        sorting::lemma_permutation_covers(order@, order@.len(), y as usize);
        let x = choose|x: int| 0 <= x < order@.len() && order@[x] == y as usize;
        assert(places@[order@[x] as int] == x);
    }
    places
}

/// Renames the directories of the files.
fn place_files(files: Vec<FileItem>, places: &Vec<u32>) -> (out: Vec<FileItem>)
    requires
        forall|t: int|
            0 <= t < files@.len() ==> (#[trigger] files@[t]).parent_dir_index < places@.len(),
    ensures
        out@.len() == files@.len(),
        forall|t: int|
            0 <= t < files@.len() ==> #[trigger] out@[t] == (FileItem {
                parent_dir_index: places@[files@[t].parent_dir_index as int],
                ..files@[t]
            }),
{
    let mut out: Vec<FileItem> = Vec::new();
    let mut i: usize = 0;
    while i < files.len()
        invariant
            i <= files@.len(),
            forall|t: int|
                0 <= t < files@.len() ==> (#[trigger] files@[t]).parent_dir_index < places@.len(),
            out@.len() == i,
            forall|t: int|
                0 <= t < i ==> #[trigger] out@[t] == (FileItem {
                    parent_dir_index: places@[files@[t].parent_dir_index as int],
                    ..files@[t]
                }),
        decreases files@.len() - i,
    {
        let mut file: FileItem = files[i];
        file.parent_dir_index = places[file.parent_dir_index as usize];
        out.push(file);
        i += 1;
    }
    out
}

proof fn lemma_sorted_globals(
    sync: FileSync,
    picked: Seq<u32>,
    order: Seq<usize>,
    globals: Seq<u32>,
)
    requires
        sync.wf(),
        forall|x: int| 0 <= x < picked.len() ==> (#[trigger] picked[x]) < sync.dirs.items@.len(),
        forall|x: int, y: int|
            0 <= x < y < picked.len() ==> #[trigger] picked[x] != #[trigger] picked[y],
        sorting::is_permutation(order, picked.len()),
        globals == sorting::permuted(picked, order),
    ensures
        forall|x: int| 0 <= x < globals.len() ==> (#[trigger] globals[x]) < sync.dirs.items@.len(),
        forall|x: int, y: int|
            0 <= x < y < globals.len() ==> #[trigger] globals[x] != #[trigger] globals[y],
        sorting::total(
            Seq::new(
                globals.len(),
                |x: int| dir_table_costs(sync.dir_models())[globals[x] as int],
            ),
        ) <= sorting::total(dir_table_costs(sync.dir_models())),
{
    assert forall|x: int, y: int| 0 <= x < y < globals.len() implies #[trigger] globals[x]
        != #[trigger] globals[y] by {
        assert(order[x] != order[y]);
        if order[x] < order[y] {
            assert(picked[order[x] as int] != picked[order[y] as int]);
        } else {
            assert(picked[order[y] as int] != picked[order[x] as int]);
        }
    }
    let wide = Seq::new(globals.len(), |x: int| globals[x] as usize);
    assert forall|x: int, y: int| 0 <= x < y < wide.len() implies #[trigger] wide[x]
        != #[trigger] wide[y] by {
        assert(globals[x] != globals[y]);
    }
    assert forall|x: int| 0 <= x < wide.len() implies (#[trigger] wide[x]) < dir_table_costs(
        sync.dir_models(),
    ).len() by {
        assert(globals[x] < sync.dirs.items@.len());
    }
    sorting::lemma_total_of_picked(dir_table_costs(sync.dir_models()), wide);
    assert(Seq::new(globals.len(), |x: int| dir_table_costs(sync.dir_models())[globals[x] as int])
        =~= Seq::new(wide.len(), |i: int| dir_table_costs(sync.dir_models())[wide[i] as int]));
}

proof fn lemma_is_export(
    sync: FileSync,
    layer: LayerId,
    first: Seq<FileItem>,
    picked: Seq<u32>,
    order: Seq<usize>,
    globals: Seq<u32>,
    copy: ChunkedPathStore,
    s: LayerSnapshot,
)
    requires
        sync.wf(),
        sync.layers.has_id(layer),
        collected(
            sync,
            layer,
            sync.layers.file_span(layer - 1, sync.files.items@.len() as int).1,
            picked,
            first,
        ),
        picked.len() <= u32::MAX,
        sorting::is_permutation(order, picked.len()),
        globals == sorting::permuted(picked, order),
        forall|x: int| 0 <= x < globals.len() ==> (#[trigger] globals[x]) < sync.dirs.items@.len(),
        forall|x: int, y: int|
            0 <= x < y < globals.len() ==> #[trigger] globals[x] != #[trigger] globals[y],
        forall|x: int, y: int|
            0 <= x < y < globals.len() ==> bytes::lex_le(
                sync.dir_text(#[trigger] globals[x] as int),
                sync.dir_text(#[trigger] globals[y] as int),
            ),
        copy.wf(),
        sync.layers.layers@[layer - 1].store.arena() matches Some(arena) ==> copy.same_as(arena),
        s.store.wf(),
        s.store.extends(copy),
        s.dirs@.len() == globals.len(),
        forall|x: int|
            0 <= x < globals.len() ==> {
                &&& s.store.names_path((#[trigger] s.dirs@[x]).path)
                &&& sync::dir_model(s.dirs@[x], s.store.path(s.dirs@[x].path)) == exported_dir(
                    sync,
                    layer,
                    globals,
                    x,
                )
            },
        s.files@.len() == first.len(),
        forall|t: int|
            0 <= t < first.len() ==> (#[trigger] s.files@[t]) == (FileItem {
                parent_dir_index: s.files@[t].parent_dir_index,
                ..first[t]
            }) && s.files@[t].parent_dir_index < order.len()
                && order[s.files@[t].parent_dir_index as int] == first[t].parent_dir_index,
        layers::label_text(s.label) == layers::label_text(sync.layers.layers@[layer - 1].label),
        s.layout == if sync.layers.layers@[layer - 1].sorted {
            SnapshotLayout::Sorted
        } else {
            SnapshotLayout::Unsorted
        },
    ensures
        s.wf(),
        is_export(sync, layer, s),
{
    let len = sync.files.items@.len() as int;
    let (start, end) = sync.layers.file_span(layer - 1, len);
    layers::law_ranges_stay_in_bounds(sync.layers, layer - 1, len);
    let live = live_slots(sync.file_models(), start, end);
    lemma_live_slots(sync.file_models(), start, end);
    assert forall|t: int| 0 <= t < s.files@.len() implies s.store.names_path(
        (#[trigger] s.files@[t]).path,
    ) && s.files@[t].parent_dir_index < s.dirs@.len() && exported_file(sync, s, t, live[t]) by {
        let slot = live[t];
        let file = sync.files.items@[slot];
        assert(sync.file_ok(slot));
        crate::file_picker::arrange::lemma_span_layer(sync, layer - 1, slot);
        assert(copied_file(file, first[t], first[t].parent_dir_index));
        assert(s.files@[t].path == file.path);
        let arena = sync.layers.layers@[layer - 1].store.arena()->0;
        assert(copy.path(file.path) == arena.path(file.path));
        simd_path::lemma_paths_survive_growth(copy, s.store, file.path);
        let p = s.files@[t].parent_dir_index as int;
        assert(globals[p] == picked[order[p] as int]);
        assert(picked[first[t].parent_dir_index as int] == file.parent_dir_index);
        assert(s.store.names_path(s.dirs@[p].path));
        assert(s.dir_text(p) == sync.dir_text(globals[p] as int));
    }
    assert forall|t: int| 0 <= t < s.files@.len() implies exported_file(
        sync,
        s,
        t,
        #[trigger] live[t],
    ) by {
        assert(s.store.names_path(s.files@[t].path));
    }
    assert forall|x: int, y: int| 0 <= x < y < s.dirs@.len() implies bytes::lex_le(
        #[trigger] s.dir_text(x),
        #[trigger] s.dir_text(y),
    ) by {
        assert(s.store.names_path(s.dirs@[x].path));
        assert(s.store.names_path(s.dirs@[y].path));
        assert(bytes::lex_le(
            sync.dir_text(globals[x] as int),
            sync.dir_text(globals[y] as int),
        ));
    }
    assert forall|x: int| 0 <= x < globals.len() implies {
        &&& (#[trigger] globals[x]) < sync.dirs.items@.len()
        &&& exports_dir(sync, layer, globals[x] as int)
        &&& s.dir_models()[x] == exported_dir(sync, layer, globals, x)
    } by {
        assert(globals[x] == picked[order[x] as int]);
        assert(s.store.names_path(s.dirs@[x].path));
    }
    assert forall|d: int| #[trigger]
        exports_dir(sync, layer, d) && 0 <= d < sync.dirs.items@.len() implies globals.contains(
        d as u32,
    ) by {
        let (dir_start, dir_end) = sync.layers.dir_span(
            layer - 1,
            sync.dirs.items@.len() as int,
        );
        if !picked.contains(d as u32) {
            if dir_start <= d < dir_end {
                assert(picked.contains(d as u32));
            } else {
                let i = choose|i: int|
                    start <= i < end && !(#[trigger] sync.file_models()[i]).deleted
                        && sync.file_models()[i].parent == d;
                assert(live.contains(i));
                let t = choose|t: int| 0 <= t < live.len() && live[t] == i;
                assert(copied_file(
                    sync.files.items@[live[t]],
                    first[t],
                    first[t].parent_dir_index,
                ));
                assert(picked[first[t].parent_dir_index as int] == d as u32);
            }
        }
        let x = choose|x: int| 0 <= x < picked.len() && picked[x] == d as u32;
        sorting::lemma_permutation_covers(order, picked.len(), x as usize);
        let p = choose|p: int| 0 <= p < order.len() && order[p] == x as usize;
        assert(globals[p] == d as u32);
    }
    assert(exported_dirs(sync, layer, s, globals));
}

} // verus!
