//! Merging two neighbouring layers into one.

use crate::bytes;
use crate::file_picker::arrange;
use crate::file_picker::sync;
use crate::file_picker::sync::{DirModel, FileModel, FileSync};
use crate::index::layers::{LayerId, LayerStack};
use crate::index::path_index::SlotPaths;
use crate::simd_path;
use crate::simd_path::{ChunkedPathStore, ChunkedPathStoreBuilder};
use crate::sorting;
use crate::types;
use crate::types::{DirItem, FileItem};
use vstd::prelude::*;

verus! {

/// Rows of these layers end up in the merged one.
pub open spec fn is_merged(layer: LayerId, first: LayerId) -> bool {
    layer == first || layer == first + 1
}

/// The id of a layer once `first` and the next one are merged.
pub open spec fn shifted_layer(layer: LayerId, first: LayerId) -> LayerId {
    if layer > first {
        (layer - 1) as LayerId
    } else {
        layer
    }
}

pub open spec fn shifted(f: FileModel, first: LayerId) -> FileModel {
    FileModel { layer: shifted_layer(f.layer, first), ..f }
}

pub open spec fn shifted_dir(d: DirModel, first: LayerId) -> DirModel {
    DirModel { layer: shifted_layer(d.layer, first), ..d }
}

pub open spec fn file_merge_costs(files: Seq<FileModel>, first: LayerId) -> Seq<nat> {
    Seq::new(
        files.len(),
        |i: int|
            if is_merged(files[i].layer, first) {
                simd_path::chunk_cost(files[i].path.len())
            } else {
                0nat
            },
    )
}

pub open spec fn dir_merge_costs(dirs: Seq<DirModel>, first: LayerId) -> Seq<nat> {
    Seq::new(
        dirs.len(),
        |i: int|
            if is_merged(dirs[i].layer, first) {
                simd_path::chunk_cost(dirs[i].path.len())
            } else {
                0nat
            },
    )
}

impl FileSync {
    /// Index table entries that a merge of `first` and the next layer takes.
    pub open spec fn merge_cost(&self, first: LayerId) -> nat {
        sorting::total(file_merge_costs(self.file_models(), first)) + sorting::total(
            dir_merge_costs(self.dir_models(), first),
        )
    }
}

/// `new` is the row of `old` after the merge.
pub open spec fn rebuilt_file(
    store: ChunkedPathStore,
    first: LayerId,
    old_file: FileItem,
    text: Seq<u8>,
    new_file: FileItem,
) -> bool {
    &&& new_file == (FileItem { path: new_file.path, flags: new_file.flags, ..old_file })
    &&& new_file.deleted() == old_file.deleted()
    &&& new_file.binary() == old_file.binary()
    &&& new_file.layer() == shifted_layer(old_file.layer(), first)
    &&& if is_merged(old_file.layer(), first) {
        &&& store.names_path(new_file.path)
        &&& store.path(new_file.path) == text
        &&& new_file.path.filename_offset == old_file.path.filename_offset
    } else {
        new_file.path == old_file.path
    }
}

pub open spec fn rebuilt_dir(
    store: ChunkedPathStore,
    first: LayerId,
    old_dir: DirItem,
    text: Seq<u8>,
    new_dir: DirItem,
) -> bool {
    &&& new_dir == (DirItem { path: new_dir.path, flags: new_dir.flags, ..old_dir })
    &&& new_dir.deleted() == old_dir.deleted()
    &&& new_dir.layer() == shifted_layer(old_dir.layer(), first)
    &&& if is_merged(old_dir.layer(), first) {
        &&& store.names_path(new_dir.path)
        &&& store.path(new_dir.path) == text
        &&& new_dir.path.filename_offset == old_dir.path.filename_offset
    } else {
        new_dir.path == old_dir.path
    }
}

/// What a merge does to the layers.
pub open spec fn layers_merged(a: LayerStack, b: LayerStack, at: int) -> bool {
    &&& b.layers@.len() == a.layers@.len() - 1
    &&& forall|i: int| 0 <= i < at ==> #[trigger] b.layers@[i] == a.layers@[i]
    &&& forall|i: int| at < i < b.layers@.len() ==> #[trigger] b.layers@[i] == a.layers@[i + 1]
    &&& b.layers@[at].label == a.layers@[at].label
    &&& b.layers@[at].files_start == a.layers@[at].files_start
    &&& b.layers@[at].dirs_start == a.layers@[at].dirs_start
    &&& b.layers@[at].store is Sealed
}

/// End of the slots of the layer at `at` and of the next one.
pub open spec fn merged_end(sync: FileSync, at: int) -> int {
    if at + 2 < sync.file_starts().len() {
        sync.file_starts()[at + 2] as int
    } else {
        sync.files.items@.len() as int
    }
}

/// The tables of `new` are those of `old`, with higher layers one id lower and
/// the files of the merged layer in another order.
pub open spec fn rows_merged(old_sync: FileSync, new_sync: FileSync, at: int) -> bool {
    let first = (at + 1) as LayerId;
    &&& exists|order: Seq<usize>| #[trigger]
        sorting::is_permutation(order, old_sync.files.items@.len()) && arrange::moves_within(
            order,
            old_sync.file_starts()[at] as int,
            merged_end(old_sync, at),
        ) && new_sync.file_models().len() == old_sync.file_models().len() && forall|i: int|
            0 <= i < new_sync.file_models().len() ==> #[trigger] new_sync.file_models()[i]
                == shifted(old_sync.file_models()[order[i] as int], first)
    &&& new_sync.dir_models().len() == old_sync.dir_models().len()
    &&& forall|i: int|
        0 <= i < new_sync.dir_models().len() ==> #[trigger] new_sync.dir_models()[i] == shifted_dir(
            old_sync.dir_models()[i],
            first,
        )
    &&& arrange::same_counts(old_sync, new_sync)
}

/// Slots keep to their layers when two of them become one.
proof fn lemma_slot_merged(
    starts: Seq<usize>,
    merged: Seq<usize>,
    at: int,
    i: int,
    layer: LayerId,
    len: int,
)
    requires
        starts.len() <= 4,
        0 <= at,
        at + 1 < starts.len(),
        merged == starts.remove(at + 1),
        forall|a: int, b: int|
            0 <= a <= b < starts.len() ==> #[trigger] starts[a] <= #[trigger] starts[b] <= len,
        sync::slot_of_layer(starts, i, layer),
    ensures
        sync::slot_of_layer(merged, i, shifted_layer(layer, (at + 1) as LayerId)),
{
    let l = layer as int;
    if l > 0 {
        if l <= at {
            if l < starts.len() {
                assert(merged[l] == starts[l]);
            }
        } else if l == at + 1 {
            assert(starts[at + 1] <= starts[at + 1]);
            if at + 2 < starts.len() {
                assert(starts[at + 1] <= starts[at + 2]);
                assert(merged[at + 1] == starts[at + 2]);
            }
        } else if l == at + 2 {
            assert(starts[at] <= starts[at + 1]);
            if at + 2 < starts.len() {
                assert(merged[at + 1] == starts[at + 2]);
            }
        } else {
            assert(merged[l - 2] == starts[l - 1]);
            if l < starts.len() {
                assert(merged[l - 1] == starts[l]);
            }
        }
    }
}

proof fn lemma_starts_merged(starts: Seq<usize>, at: int, base: int, len: int)
    requires
        sync::starts_in_order(starts, base, len),
        0 <= at,
        at + 1 < starts.len(),
    ensures
        sync::starts_in_order(starts.remove(at + 1), base, len),
{
    let merged = starts.remove(at + 1);
    assert forall|a: int, b: int| 0 <= a <= b < merged.len() implies #[trigger] merged[a]
        <= #[trigger] merged[b] <= len by {
        let x = if a <= at {
            a
        } else {
            a + 1
        };
        let y = if b <= at {
            b
        } else {
            b + 1
        };
        assert(starts[x] <= starts[y] <= len);
    }
}

impl FileSync {
    fn rebuild_files(&self, first: LayerId, builder: &mut ChunkedPathStoreBuilder) -> (out: Vec<
        FileItem,
    >)
        requires
            self.wf(),
            1 <= first < self.layers.layers@.len(),
            old(builder).wf(),
            old(builder).store.slots() + sorting::total(
                file_merge_costs(self.file_models(), first),
            ) <= u32::MAX,
        ensures
            final(builder).wf(),
            final(builder).store.extends(old(builder).store),
            final(builder).store.slots() <= old(builder).store.slots() + sorting::total(
                file_merge_costs(self.file_models(), first),
            ),
            out@.len() == self.files.items@.len(),
            forall|i: int|
                0 <= i < out@.len() ==> rebuilt_file(
                    final(builder).store,
                    first,
                    self.files.items@[i],
                    self.file_text(i),
                    #[trigger] out@[i],
                ),
    {
        let ghost start = builder.store;
        let ghost costs = file_merge_costs(self.file_models(), first);
        let second: LayerId = first + 1;
        let mut out: Vec<FileItem> = Vec::new();
        let mut i: usize = 0;
        proof {
            assert(costs.take(0) =~= Seq::empty());
            assert(start.chunks@.take(start.chunks@.len() as int) =~= start.chunks@);
            assert(start.indices@.take(start.indices@.len() as int) =~= start.indices@);
        }
        while i < self.files.items.len()
            invariant
                self.wf(),
                start == old(builder).store,
                costs == file_merge_costs(self.file_models(), first),
                second == first + 1,
                1 <= first < self.layers.layers@.len(),
                i <= self.files.items@.len(),
                builder.wf(),
                builder.store.extends(start),
                start.slots() + sorting::total(costs) <= u32::MAX,
                builder.store.slots() <= start.slots() + sorting::total(costs.take(i as int)),
                out@.len() == i,
                forall|k: int|
                    0 <= k < i ==> rebuilt_file(
                        builder.store,
                        first,
                        self.files.items@[k],
                        self.file_text(k),
                        #[trigger] out@[k],
                    ),
            decreases self.files.items@.len() - i,
        {
            let ghost before = builder.store;
            proof {
                sorting::lemma_total_step(costs, i as int);
                sorting::lemma_total_prefix(costs, i + 1);
                assert(self.file_ok(i as int));
            }
            let mut file: FileItem = self.files.items[i];
            let layer: LayerId = file.layer_id();
            if layer == first || layer == second {
                let text = self.read_file(i);
                let offset: u16 = file.path.filename_offset;
                file.set_path(builder.add_bytes(text.as_slice(), offset));
                file.set_layer(first);
            } else if layer > second {
                file.set_layer(layer - 1);
            }
            proof {
                assert forall|k: int| 0 <= k < i implies rebuilt_file(
                    builder.store,
                    first,
                    self.files.items@[k],
                    self.file_text(k),
                    #[trigger] out@[k],
                ) by {
                    if is_merged(self.files.items@[k].layer(), first) {
                        if layer == first || layer == second {
                            simd_path::lemma_paths_survive_growth(
                                before,
                                builder.store,
                                out@[k].path,
                            );
                        }
                    }
                }
            }
            out.push(file);
            i += 1;
        }
        assert(costs.take(i as int) =~= costs);
        out
    }

    fn rebuild_dirs(&self, first: LayerId, builder: &mut ChunkedPathStoreBuilder) -> (out: Vec<
        DirItem,
    >)
        requires
            self.wf(),
            1 <= first < self.layers.layers@.len(),
            old(builder).wf(),
            old(builder).store.slots() + sorting::total(
                dir_merge_costs(self.dir_models(), first),
            ) <= u32::MAX,
        ensures
            final(builder).wf(),
            final(builder).store.extends(old(builder).store),
            out@.len() == self.dirs.items@.len(),
            forall|i: int|
                0 <= i < out@.len() ==> rebuilt_dir(
                    final(builder).store,
                    first,
                    self.dirs.items@[i],
                    self.dir_text(i),
                    #[trigger] out@[i],
                ),
    {
        let ghost start = builder.store;
        let ghost costs = dir_merge_costs(self.dir_models(), first);
        let second: LayerId = first + 1;
        let mut out: Vec<DirItem> = Vec::new();
        let mut i: usize = 0;
        proof {
            assert(costs.take(0) =~= Seq::empty());
            assert(start.chunks@.take(start.chunks@.len() as int) =~= start.chunks@);
            assert(start.indices@.take(start.indices@.len() as int) =~= start.indices@);
        }
        while i < self.dirs.items.len()
            invariant
                self.wf(),
                start == old(builder).store,
                costs == dir_merge_costs(self.dir_models(), first),
                second == first + 1,
                1 <= first < self.layers.layers@.len(),
                i <= self.dirs.items@.len(),
                builder.wf(),
                builder.store.extends(start),
                start.slots() + sorting::total(costs) <= u32::MAX,
                builder.store.slots() <= start.slots() + sorting::total(costs.take(i as int)),
                out@.len() == i,
                forall|k: int|
                    0 <= k < i ==> rebuilt_dir(
                        builder.store,
                        first,
                        self.dirs.items@[k],
                        self.dir_text(k),
                        #[trigger] out@[k],
                    ),
            decreases self.dirs.items@.len() - i,
        {
            let ghost before = builder.store;
            proof {
                sorting::lemma_total_step(costs, i as int);
                sorting::lemma_total_prefix(costs, i + 1);
                assert(self.dir_ok(i as int));
            }
            let mut dir: DirItem = self.dirs.items[i];
            let layer: LayerId = dir.layer_id();
            if layer == first || layer == second {
                let text = self.read_dir(i);
                let offset: u16 = dir.path.filename_offset;
                dir.path = builder.add_bytes(text.as_slice(), offset);
                dir.set_layer(first);
            } else if layer > second {
                dir.set_layer(layer - 1);
            }
            proof {
                assert forall|k: int| 0 <= k < i implies rebuilt_dir(
                    builder.store,
                    first,
                    self.dirs.items@[k],
                    self.dir_text(k),
                    #[trigger] out@[k],
                ) by {
                    if is_merged(self.dirs.items@[k].layer(), first) {
                        if layer == first || layer == second {
                            simd_path::lemma_paths_survive_growth(
                                before,
                                builder.store,
                                out@[k].path,
                            );
                        }
                    }
                }
            }
            out.push(dir);
            i += 1;
        }
        out
    }

    /// Merges layers `at` and `at + 1` into one re-deduped arena and shifts
    /// higher ids down so an id always equals its stack position.
    pub fn compact_layers_at(&mut self, at: usize)
        requires
            old(self).wf(),
            at + 1 < old(self).layers.layers@.len(),
            old(self).merge_cost((at + 1) as LayerId) <= u32::MAX,
        ensures
            final(self).wf(),
            layers_merged(old(self).layers, final(self).layers, at as int),
            final(self).layers.layers@[at as int].sorted,
            rows_merged(*old(self), *final(self), at as int),
            sync::keys_ascend(
                final(self).file_models(),
                final(self).layers.file_span(
                    at as int,
                    final(self).files.items@.len() as int,
                ).0,
                final(self).layers.file_span(
                    at as int,
                    final(self).files.items@.len() as int,
                ).1,
            ),
            old(self).ordered() ==> final(self).ordered(),
    {
        let ghost a = *self;
        let ghost n = a.files.items@.len();
        let first: LayerId = (at + 1) as LayerId;
        let mut builder = ChunkedPathStoreBuilder::new(self.files.items.len());
        let files = self.rebuild_files(first, &mut builder);
        let ghost mid = builder.store;
        let dirs = self.rebuild_dirs(first, &mut builder);
        let store = builder.finish();
        proof {
            assert forall|i: int| 0 <= i < n implies rebuilt_file(
                store,
                first,
                a.files.items@[i],
                a.file_text(i),
                #[trigger] files@[i],
            ) by {
                assert(rebuilt_file(mid, first, a.files.items@[i], a.file_text(i), files@[i]));
                if is_merged(a.files.items@[i].layer(), first) {
                    simd_path::lemma_paths_survive_growth(mid, store, files@[i].path);
                }
            }
        }
        self.files.items = files;
        self.dirs.items = dirs;
        self.layers.merge_at(at, store);
        let ghost m = *self;
        proof {
            lemma_merged_state(a, m, store, at as int);
        }
        let (start, end) = match self.layers.file_range(first, self.files.len()) {
            Some(range) => range,
            None => (0, 0),
        };
        proof {
            arrange::lemma_span(m, at as int);
            assert forall|i: int, j: int|
                start <= i < end && start <= j < end implies (
            #[trigger] m.files.items@[i]).layer() == (#[trigger] m.files.items@[j]).layer() by {
                arrange::lemma_span_layer(m, at as int, i);
                arrange::lemma_span_layer(m, at as int, j);
            }
        }
        self.sort_file_range(start, end);
        let ghost s = *self;
        let ghost order = choose|order: Seq<usize>| #[trigger]
            arrange::files_rearranged(m, s, order) && arrange::moves_within(
                order,
                start as int,
                end as int,
            ) && s.file_models() == sorting::permuted(m.file_models(), order);
        self.layers.set_sorted(first, true);
        proof {
            lemma_flag_sorted(s, *self, at as int);
            arrange::lemma_span(*self, at as int);
            assert(self.file_starts() =~= m.file_starts());
            assert(layers_merged(a.layers, self.layers, at as int));
            assert(start == a.file_starts()[at as int]);
            assert(end == merged_end(a, at as int));
            assert(rows_merged(a, *self, at as int)) by {
                assert(sorting::is_permutation(order, n));
                assert forall|i: int|
                    0 <= i < self.file_models().len() implies #[trigger] self.file_models()[i]
                    == shifted(a.file_models()[order[i] as int], first) by {
                    assert(s.file_models()[i] == m.file_models()[order[i] as int]);
                }
            }
            if a.ordered() {
                lemma_merged_ordered(a, m, at as int);
                assert forall|l: int|
                    0 <= l < self.layers.layers@.len() && (
                    #[trigger] self.layers.layers@[l]).sorted implies sync::keys_ascend(
                    self.file_models(),
                    self.layers.file_span(l, n as int).0,
                    self.layers.file_span(l, n as int).1,
                ) by {
                    arrange::lemma_span(*self, l);
                    arrange::lemma_span(m, l);
                    assert(self.file_starts() =~= m.file_starts());
                    if l != at {
                        assert(m.layers.layers@[l].sorted);
                        let s0 = m.layers.file_span(l, n as int).0;
                        let e0 = m.layers.file_span(l, n as int).1;
                        if l < at {
                            assert(m.file_starts()[l + 1] <= m.file_starts()[at as int]);
                        } else {
                            assert(m.file_starts()[at + 1] <= m.file_starts()[l]);
                        }
                        arrange::lemma_keys_unmoved(
                            m.file_models(),
                            order,
                            start as int,
                            end as int,
                            s0,
                            e0,
                        );
                    }
                }
                arrange::lemma_ordered_rearranged(m, *self, order, start as int, end as int);
            }
        }
    }
}

/// The state between the merge and the sort.
proof fn lemma_merged_state(a: FileSync, m: FileSync, store: ChunkedPathStore, at: int)
    requires
        a.wf(),
        0 <= at,
        at + 1 < a.layers.layers@.len(),
        store.wf(),
        m == (FileSync { files: m.files, dirs: m.dirs, layers: m.layers, ..a }),
        m.files.capacity == a.files.capacity,
        m.dirs.capacity == a.dirs.capacity,
        m.files.items@.len() == a.files.items@.len(),
        m.dirs.items@.len() == a.dirs.items@.len(),
        m.layers.wf(),
        layers_merged(a.layers, m.layers, at),
        !m.layers.layers@[at].sorted,
        m.layers.layers@[at].store.arena() == Some(store),
        forall|i: int|
            0 <= i < a.files.items@.len() ==> rebuilt_file(
                store,
                (at + 1) as LayerId,
                a.files.items@[i],
                a.file_text(i),
                #[trigger] m.files.items@[i],
            ),
        forall|i: int|
            0 <= i < a.dirs.items@.len() ==> rebuilt_dir(
                store,
                (at + 1) as LayerId,
                a.dirs.items@[i],
                a.dir_text(i),
                #[trigger] m.dirs.items@[i],
            ),
    ensures
        m.wf(),
        m.file_models().len() == a.file_models().len(),
        forall|i: int|
            0 <= i < m.file_models().len() ==> #[trigger] m.file_models()[i] == shifted(
                a.file_models()[i],
                (at + 1) as LayerId,
            ),
        m.dir_models().len() == a.dir_models().len(),
        forall|i: int|
            0 <= i < m.dir_models().len() ==> #[trigger] m.dir_models()[i] == shifted_dir(
                a.dir_models()[i],
                (at + 1) as LayerId,
            ),
{
    let first = (at + 1) as LayerId;
    assert(m.file_starts() =~= a.file_starts().remove(at + 1)) by {
        assert forall|i: int| 0 <= i < m.file_starts().len() implies m.file_starts()[i]
            == a.file_starts().remove(at + 1)[i] by {
            if i < at {
                assert(m.layers.layers@[i] == a.layers.layers@[i]);
            } else if i > at {
                assert(m.layers.layers@[i] == a.layers.layers@[i + 1]);
            }
        }
    }
    assert(m.dir_starts() =~= a.dir_starts().remove(at + 1)) by {
        assert forall|i: int| 0 <= i < m.dir_starts().len() implies m.dir_starts()[i]
            == a.dir_starts().remove(at + 1)[i] by {
            if i < at {
                assert(m.layers.layers@[i] == a.layers.layers@[i]);
            } else if i > at {
                assert(m.layers.layers@[i] == a.layers.layers@[i + 1]);
            }
        }
    }
    lemma_starts_merged(
        a.file_starts(),
        at,
        a.base_count as int,
        a.files.items@.len() as int,
    );
    lemma_starts_merged(
        a.dir_starts(),
        at,
        a.base_dirs_count as int,
        a.dirs.items@.len() as int,
    );
    assert forall|i: int| 0 <= i < m.files.items@.len() implies #[trigger] m.file_ok(i)
        && m.file_slots().path_at(i) == a.file_slots().path_at(i) by {
        assert(a.file_ok(i));
        assert(rebuilt_file(
            store,
            first,
            a.files.items@[i],
            a.file_text(i),
            m.files.items@[i],
        ));
        let l = a.files.items@[i].layer() as int;
        if 0 < l < first {
            assert(m.layers.layers@[l - 1] == a.layers.layers@[l - 1]);
        } else if l > first + 1 {
            assert(m.layers.layers@[l - 2] == a.layers.layers@[l - 1]);
        }
        lemma_slot_merged(
            a.file_starts(),
            m.file_starts(),
            at,
            i,
            a.files.items@[i].layer(),
            a.files.items@.len() as int,
        );
    }
    assert forall|i: int| 0 <= i < m.dirs.items@.len() implies #[trigger] m.dir_ok(i)
        && m.dir_slots().path_at(i) == a.dir_slots().path_at(i) by {
        assert(a.dir_ok(i));
        assert(rebuilt_dir(store, first, a.dirs.items@[i], a.dir_text(i), m.dirs.items@[i]));
        let l = a.dirs.items@[i].layer() as int;
        if 0 < l < first {
            assert(m.layers.layers@[l - 1] == a.layers.layers@[l - 1]);
        } else if l > first + 1 {
            assert(m.layers.layers@[l - 2] == a.layers.layers@[l - 1]);
        }
        lemma_slot_merged(
            a.dir_starts(),
            m.dir_starts(),
            at,
            i,
            a.dirs.items@[i].layer(),
            a.dirs.items@.len() as int,
        );
    }
    assert forall|i: int| 0 <= i < m.file_models().len() implies #[trigger] m.file_models()[i]
        == shifted(a.file_models()[i], first) by {
        assert(m.file_ok(i));
        assert(rebuilt_file(
            store,
            first,
            a.files.items@[i],
            a.file_text(i),
            m.files.items@[i],
        ));
    }
    assert forall|i: int| 0 <= i < m.dir_models().len() implies #[trigger] m.dir_models()[i]
        == shifted_dir(a.dir_models()[i], first) by {
        assert(m.dir_ok(i));
        assert(rebuilt_dir(store, first, a.dirs.items@[i], a.dir_text(i), m.dirs.items@[i]));
    }
    arrange::lemma_live_same(
        a.file_models(),
        m.file_models(),
        a.files.items@.len() as int,
    );
    arrange::lemma_live_dirs_same(a.dir_models(), m.dir_models(), a.dirs.items@.len() as int);
    assert forall|slot: int|
        a.open_file_index.start <= slot
            < a.open_file_index.indexed_upto implies #[trigger] m.file_slots().path_at(slot)
        == a.file_slots().path_at(slot) by {
        assert(m.file_ok(slot));
    }
    arrange::lemma_consistent(a.open_file_index, a.file_slots(), m.file_slots());
    assert forall|slot: int|
        a.overlay_dir_index.start <= slot
            < a.overlay_dir_index.indexed_upto implies #[trigger] m.dir_slots().path_at(slot)
        == a.dir_slots().path_at(slot) by {
        assert(m.dir_ok(slot));
    }
    arrange::lemma_consistent(a.overlay_dir_index, a.dir_slots(), m.dir_slots());
    assert forall|i: int| 0 <= i < m.layers.layers@.len() - 1 implies (
    #[trigger] m.layers.layers@[i]).store is Sealed by {
        if i < at {
            assert(m.layers.layers@[i] == a.layers.layers@[i]);
        } else if i > at {
            assert(m.layers.layers@[i] == a.layers.layers@[i + 1]);
        }
    }
}

/// Merging keeps a table ordered; the merged layer is not said to be sorted yet.
proof fn lemma_merged_ordered(a: FileSync, m: FileSync, at: int)
    requires
        a.wf(),
        a.ordered(),
        m.wf(),
        0 <= at,
        at + 1 < a.layers.layers@.len(),
        layers_merged(a.layers, m.layers, at),
        !m.layers.layers@[at].sorted,
        m.indexable_count == a.indexable_count,
        m.base_count == a.base_count,
        m.base_dirs_count == a.base_dirs_count,
        m.file_models().len() == a.file_models().len(),
        forall|i: int|
            0 <= i < m.file_models().len() ==> #[trigger] m.file_models()[i] == shifted(
                a.file_models()[i],
                (at + 1) as LayerId,
            ),
        m.dir_models().len() == a.dir_models().len(),
        forall|i: int|
            0 <= i < m.dir_models().len() ==> #[trigger] m.dir_models()[i] == shifted_dir(
                a.dir_models()[i],
                (at + 1) as LayerId,
            ),
    ensures
        m.ordered(),
{
    let fa = a.file_models();
    let fm = m.file_models();
    let da = a.dir_models();
    let dm = m.dir_models();
    let n = fa.len() as int;
    assert forall|i: int, j: int| 0 <= i < j < fm.len() implies (#[trigger] fm[i]).path != (
    #[trigger] fm[j]).path by {
        assert(fa[i].path != fa[j].path);
    }
    assert forall|i: int, j: int| 0 <= i < j < dm.len() implies (#[trigger] dm[i]).path != (
    #[trigger] dm[j]).path by {
        assert(da[i].path != da[j].path);
    }
    assert forall|i: int| 0 <= i < fm.len() implies sync::tidy_file(#[trigger] fm[i], dm) by {
        assert(sync::tidy_file(fa[i], da));
    }
    assert forall|s: int, e: int|
        0 <= s && e <= n && #[trigger] sync::keys_ascend(fa, s, e) implies sync::keys_ascend(
        fm,
        s,
        e,
    ) by {
        assert forall|i: int, j: int| s <= i < j < e implies types::key_le(
            (#[trigger] fm[i]).key(),
            (#[trigger] fm[j]).key(),
        ) by {
            assert(types::key_le(fa[i].key(), fa[j].key()));
        }
    }
    assert(sync::keys_ascend(fa, 0, a.indexable_count as int));
    assert(sync::keys_ascend(fa, a.indexable_count as int, a.base_count as int));
    arrange::lemma_span(a, 0);
    assert forall|i: int, j: int| 0 <= i < j < m.base_dirs_count implies bytes::lex_le(
        (#[trigger] dm[i]).path,
        (#[trigger] dm[j]).path,
    ) by {
        assert(a.dir_starts()[0] <= a.dir_starts()[0] <= a.dirs.items@.len());
        assert(bytes::lex_le(da[i].path, da[j].path));
    }
    assert forall|l: int|
        0 <= l < m.layers.layers@.len() && (
        #[trigger] m.layers.layers@[l]).sorted implies sync::keys_ascend(
        fm,
        m.layers.file_span(l, n).0,
        m.layers.file_span(l, n).1,
    ) by {
        let k = if l < at {
            l
        } else {
            l + 1
        };
        assert(m.layers.layers@[l] == a.layers.layers@[k]);
        assert(a.layers.layers@[k].sorted);
        if l + 1 < m.layers.layers@.len() && l + 1 != at {
            let k1 = if l + 1 < at {
                l + 1
            } else {
                l + 2
            };
            assert(m.layers.layers@[l + 1] == a.layers.layers@[k1]);
        }
        assert(sync::keys_ascend(fa, a.layers.file_span(k, n).0, a.layers.file_span(k, n).1));
        arrange::lemma_span(a, k);
        arrange::lemma_span(m, l);
    }
}

/// Saying that a layer is sorted moves nothing.
pub proof fn lemma_flag_sorted(s: FileSync, t: FileSync, at: int)
    requires
        s.wf(),
        0 <= at < s.layers.layers@.len(),
        t == (FileSync { layers: t.layers, ..s }),
        t.layers.wf(),
        t.layers.layers@.len() == s.layers.layers@.len(),
        forall|i: int|
            0 <= i < s.layers.layers@.len() && i != at ==> #[trigger] t.layers.layers@[i]
                == s.layers.layers@[i],
        t.layers.layers@[at] == (crate::index::layers::IndexLayer {
            sorted: t.layers.layers@[at].sorted,
            ..s.layers.layers@[at]
        }),
    ensures
        t.wf(),
        t.file_models() == s.file_models(),
        t.dir_models() == s.dir_models(),
{
    assert(arrange::arenas_grow(s.layers, t.layers)) by {
        assert forall|i: int|
            0 <= i < s.layers.layers@.len() implies match (
        #[trigger] s.layers.layers@[i]).store.arena() {
            Some(x) => t.layers.layers@[i].store.arena() matches Some(y) && y.wf() && y.extends(x),
            None => true,
        } by {
            assert(s.layers.layers@[i].store.wf());
            assert(t.layers.layers@[i].store == s.layers.layers@[i].store);
            match s.layers.layers@[i].store.arena() {
                Some(x) => {
                    assert(x.chunks@.take(x.chunks@.len() as int) =~= x.chunks@);
                    assert(x.indices@.take(x.indices@.len() as int) =~= x.indices@);
                },
                None => {},
            }
        }
    }
    arrange::lemma_rows_kept(s, t);
    assert(t.file_starts() =~= s.file_starts());
    assert(t.dir_starts() =~= s.dir_starts());
    assert forall|i: int| 0 <= i < t.files.items@.len() implies #[trigger] t.file_ok(i) by {
        assert(s.file_ok(i));
        assert(t.file_slots().readable(i));
    }
    assert forall|i: int| 0 <= i < t.dirs.items@.len() implies #[trigger] t.dir_ok(i) by {
        assert(s.dir_ok(i));
        assert(t.dir_slots().readable(i));
    }
}

} // verus!
