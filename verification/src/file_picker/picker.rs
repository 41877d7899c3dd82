//! The index as its users see it.

use crate::error::{Error, LayerFormatError};
use crate::file_picker::adopt;
use crate::file_picker::arrange;
use crate::file_picker::attach;
use crate::file_picker::entries;
use crate::file_picker::export;
use crate::file_picker::layer_ops;
use crate::file_picker::restore;
use crate::file_picker::restore::FrecencyScores;
use crate::file_picker::sync;
use crate::file_picker::sync::FileSync;
use crate::index::codec;
use crate::index::codec::LayerSnapshot;
use crate::index::layers;
use crate::index::layers::{
    LayerId,
    LayerInfo,
    LayerStack,
    MAX_OVERFLOW_FILES,
    MAX_OVERLAY_LAYERS,
};
use crate::index::path_index::PathIndex;
use crate::index::snapshot::IndexEntry;
use crate::sorting;
use crate::stable_vec::StableVec;
use crate::types::{DirItem, FileItem};
use vstd::prelude::*;

verus! {

pub struct FilePicker {
    pub sync_data: FileSync,
    /// A pass over the files of the last scan is still running and holds on to
    /// the tables.
    pub post_scan_indexing_active: bool,
}

/// The tables would have to grow for these rows.
pub open spec fn needs_growth(sync: FileSync, files: int, dirs: int) -> bool {
    ||| sync.files.items@.len() + files > sync.files.capacity
    ||| sync.dirs.items@.len() + dirs > sync.dirs.capacity
}

impl FileSync {
    /// An index before its first scan.
    pub fn new() -> (r: Self)
        ensures
            r.wf(),
            r.ordered(),
            r.file_models().len() == 0,
            r.dir_models().len() == 0,
            r.base_count == 0,
            r.base_dirs_count == 0,
            r.chunked_paths is None,
            r.layers.layers@.len() == 1,
            restore::session_open(r),
            r.files.capacity == MAX_OVERFLOW_FILES,
            r.dirs.capacity == MAX_OVERFLOW_FILES,
    {
        FileSync {
            files: StableVec::from_vec_with_reserve(Vec::new(), MAX_OVERFLOW_FILES),
            indexable_count: 0,
            base_count: 0,
            live_count: 0,
            dirs: StableVec::from_vec_with_reserve(Vec::new(), MAX_OVERFLOW_FILES),
            base_dirs_count: 0,
            live_dirs_count: 0,
            layers: LayerStack::new(0, 0),
            open_file_index: PathIndex::new(),
            overlay_dir_index: PathIndex::new(),
            chunked_paths: None,
        }
    }
}

impl FilePicker {
    pub open spec fn wf(&self) -> bool {
        self.sync_data.wf()
    }

    /// A picker before its first scan.
    pub fn new() -> (r: Self)
        ensures
            r.wf(),
            r.sync_data.ordered(),
            r.sync_data.file_models().len() == 0,
            r.sync_data.dir_models().len() == 0,
            r.sync_data.chunked_paths is None,
            r.sync_data.layers.layers@.len() == 1,
            restore::session_open(r.sync_data),
            r.sync_data.files.capacity == MAX_OVERFLOW_FILES,
            r.sync_data.dirs.capacity == MAX_OVERFLOW_FILES,
            !r.post_scan_indexing_active,
    {
        FilePicker { sync_data: FileSync::new(), post_scan_indexing_active: false }
    }

    /// Seals the writable overlay and opens a new one, returning its id.
    ///
    /// Everything that is indexed from now on lands in the new layer. The stack
    /// holds at most [`MAX_OVERLAY_LAYERS`] overlays; past that the two newest
    /// are compacted into one, so the session layer always survives.
    pub fn create_layer(&mut self, label: Option<&str>) -> (id: LayerId)
        requires
            old(self).wf(),
            old(self).sync_data.can_merge(),
        ensures
            final(self).wf(),
            final(self).post_scan_indexing_active == old(self).post_scan_indexing_active,
            id == final(self).sync_data.layers.layers@.len(),
            id == (if old(self).sync_data.is_full() {
                MAX_OVERLAY_LAYERS as nat
            } else {
                old(self).sync_data.layers.layers@.len() + 1
            }),
            layer_ops::carried(
                old(self).sync_data,
                final(self).sync_data,
                old(self).sync_data.is_full(),
                old(self).sync_data.fixed_slots(),
            ),
            forall|i: int|
                0 <= i < id - 1 ==> (#[trigger] final(self).sync_data.layers.layers@[i]).label
                    == old(self).sync_data.layers.layers@[i].label,
            layer_ops::opened_as(final(self).sync_data, label),
            old(self).sync_data.ordered() ==> final(self).sync_data.ordered(),
    {
        self.sync_data.create_layer(label)
    }

    /// Layer new files are currently written into.
    pub fn current_layer(&self) -> (id: LayerId)
        requires
            self.wf(),
        ensures
            id == self.sync_data.layers.layers@.len(),
    {
        self.sync_data.layers.top_id()
    }

    /// Overlay layers, oldest first. The base scan (layer 0) is not among them.
    pub fn layers(&self) -> (r: Vec<LayerInfo>)
        requires
            self.wf(),
            self.sync_data.layers.bytes_fit(),
        ensures
            r@.len() == self.sync_data.layers.layers@.len(),
            forall|i: int|
                0 <= i < r@.len() ==> layers::describes(
                    self.sync_data.layers,
                    self.sync_data.files.items@,
                    self.sync_data.dirs.items@.len() as int,
                    i,
                    #[trigger] r@[i],
                ),
    {
        self.sync_data.layers.info(self.sync_data.files.items.as_slice(), self.sync_data.dirs.len())
    }

    /// Files owned by `layer` (0 = base scan), tombstones included. Empty for
    /// unknown ids.
    pub fn files_in_layer(&self, layer: LayerId) -> (r: &[FileItem])
        requires
            self.wf(),
        ensures
            layer == 0 ==> r@ == self.sync_data.files.items@.take(self.sync_data.base_count as int),
            self.sync_data.layers.has_id(layer) ==> r@ == self.sync_data.files.items@.subrange(
                self.sync_data.layers.file_span(
                    layer - 1,
                    self.sync_data.files.items@.len() as int,
                ).0,
                self.sync_data.layers.file_span(
                    layer - 1,
                    self.sync_data.files.items@.len() as int,
                ).1,
            ),
            layer != 0 && !self.sync_data.layers.has_id(layer) ==> r@.len() == 0,
            forall|i: int|
                0 <= i < r@.len() ==> (#[trigger] r@[i]).layer() == layer,
            forall|i: int|
                0 <= i < self.sync_data.files.items@.len() && (
                #[trigger] self.sync_data.files.items@[i]).layer() == layer ==> r@.contains(
                    self.sync_data.files.items@[i],
                ),
    {
        let sync = &self.sync_data;
        let files = sync.files.items.as_slice();
        let ghost n = files@.len() as int;
        proof {
            arrange::lemma_span(*sync, 0);
            assert forall|i: int| 0 <= i < n implies (
            (#[trigger] files@[i]).layer() == 0 <==> i < sync.base_count) by {
                lemma_file_layer(*sync, 0, i);
            }
            if sync.layers.has_id(layer) {
                arrange::lemma_span(*sync, layer - 1);
            }
        }
        if layer == 0 {
            let r = vstd::slice::slice_subrange(files, 0, sync.base_count);
            proof {
                assert(r@ =~= files@.take(sync.base_count as int));
                assert forall|i: int| 0 <= i < n && (#[trigger] files@[i]).layer() == 0 implies r@.contains(
                    files@[i],
                ) by {
                    assert(r@[i] == files@[i]);
                }
                assert forall|i: int| 0 <= i < r@.len() implies (#[trigger] r@[i]).layer()
                    == 0 by {
                    assert(files@[i].layer() == 0);
                }
            }
            return r;
        }
        match sync.layers.file_range(layer, files.len()) {
            Some((start, end)) => {
                let r = vstd::slice::slice_subrange(files, start, end);
                proof {
                    assert forall|i: int|
                        0 <= i < n && (#[trigger] files@[i]).layer() == layer implies r@.contains(
                        files@[i],
                    ) by {
                        lemma_file_layer(*sync, layer, i);
                        assert(r@[i - start] == files@[i]);
                    }
                    assert forall|i: int| 0 <= i < r@.len() implies (#[trigger] r@[i]).layer()
                        == layer by {
                        lemma_file_layer(*sync, layer, start + i);
                    }
                }
                r
            },
            None => {
                proof {
                    assert forall|i: int| 0 <= i < n implies (#[trigger] files@[i]).layer()
                        != layer by {
                        lemma_file_layer(*sync, layer, i);
                    }
                }
                vstd::slice::slice_subrange(files, 0, 0)
            },
        }
    }

    /// Dirs owned by `layer` (0 = base scan), tombstones included. Empty for
    /// unknown ids.
    pub fn dirs_in_layer(&self, layer: LayerId) -> (r: &[DirItem])
        requires
            self.wf(),
        ensures
            layer == 0 ==> r@ == self.sync_data.dirs.items@.take(
                self.sync_data.base_dirs_count as int,
            ),
            self.sync_data.layers.has_id(layer) ==> r@ == self.sync_data.dirs.items@.subrange(
                self.sync_data.layers.dir_span(
                    layer - 1,
                    self.sync_data.dirs.items@.len() as int,
                ).0,
                self.sync_data.layers.dir_span(
                    layer - 1,
                    self.sync_data.dirs.items@.len() as int,
                ).1,
            ),
            layer != 0 && !self.sync_data.layers.has_id(layer) ==> r@.len() == 0,
    {
        let sync = &self.sync_data;
        let dirs = sync.dirs.items.as_slice();
        proof {
            let starts = sync.dir_starts();
            assert(starts[0] <= starts[0] <= dirs@.len());
            if sync.layers.has_id(layer) {
                assert(starts[layer - 1] <= starts[layer - 1] <= dirs@.len());
                if layer < starts.len() {
                    assert(starts[layer - 1] <= starts[layer as int] <= dirs@.len());
                }
            }
        }
        if layer == 0 {
            let r = vstd::slice::slice_subrange(dirs, 0, sync.base_dirs_count);
            assert(r@ =~= dirs@.take(sync.base_dirs_count as int));
            return r;
        }
        match sync.layers.dir_range(layer, dirs.len()) {
            Some((start, end)) => vstd::slice::slice_subrange(dirs, start, end),
            None => vstd::slice::slice_subrange(dirs, 0, 0),
        }
    }

    /// Appends entries to the writable layer. Paths already in the index are
    /// skipped. Returns the number added.
    ///
    /// Grows the file table when needed; fails with [`Error::IndexBusy`] while
    /// a post-scan pass holds on to it.
    pub fn add_entries(&mut self, entries: &[IndexEntry<'_>]) -> (r: Result<usize, Error>)
        requires
            old(self).wf(),
            old(self).sync_data.can_merge(),
            old(self).sync_data.top_slots() + sorting::total(entries::entry_costs(entries@))
                <= u32::MAX,
            old(self).sync_data.files.items@.len() + entries@.len() + MAX_OVERFLOW_FILES
                <= u32::MAX,
            old(self).sync_data.dirs.items@.len() + entries@.len() + MAX_OVERFLOW_FILES <= u32::MAX,
        ensures
            final(self).wf(),
            final(self).post_scan_indexing_active == old(self).post_scan_indexing_active,
            match r {
                Ok(added) => !is_busy(*old(self), entries@.len() as int, entries@.len() as int)
                    && entries_joined(
                    old(self).sync_data,
                    final(self).sync_data,
                    entries@,
                    added,
                ) && (old(self).sync_data.ordered() ==> entries_added(
                    old(self).sync_data,
                    final(self).sync_data,
                    entries@,
                    added,
                )),
                Err(e) => e == Error::IndexBusy && is_busy(
                    *old(self),
                    entries@.len() as int,
                    entries@.len() as int,
                ) && final(self).sync_data == old(self).sync_data,
            },
    {
        match self.reserve_index(entries.len(), entries.len()) {
            Err(e) => Err(e),
            Ok(()) => {
                let ghost g = self.sync_data;
                assert(adopt::grown(
                    old(self).sync_data,
                    g,
                    entries@.len() as int,
                    entries@.len() as int,
                ));
                let added: usize = self.sync_data.add_entries(entries);
                proof {
                    assert(entries::is_joined(g, self.sync_data, entries@, added));
                    if old(self).sync_data.ordered() {
                        assert(entries::is_extended(g, self.sync_data, entries@, added));
                        assert(entries_added(
                            old(self).sync_data,
                            self.sync_data,
                            entries@,
                            added,
                        ));
                    }
                }
                Ok(added)
            },
        }
    }

    /// Attaches `snapshot` as a new sealed layer on top of the stack and
    /// returns its id. Files already present in the index are skipped.
    pub fn import_layer(&mut self, snapshot: LayerSnapshot) -> (r: Result<LayerId, Error>)
        requires
            old(self).wf(),
            old(self).sync_data.can_merge(),
            snapshot.wf(),
            old(self).sync_data.files.items@.len() + snapshot.files@.len() + MAX_OVERFLOW_FILES
                <= u32::MAX,
            old(self).sync_data.dirs.items@.len() + snapshot.dirs@.len() + MAX_OVERFLOW_FILES
                <= u32::MAX,
        ensures
            final(self).wf(),
            final(self).post_scan_indexing_active == old(self).post_scan_indexing_active,
            match r {
                Ok(layer) => !is_busy(
                    *old(self),
                    snapshot.files@.len() as int,
                    snapshot.dirs@.len() as int,
                ) && layer_imported(
                    old(self).sync_data,
                    final(self).sync_data,
                    snapshot,
                    layer,
                ),
                Err(e) => e == Error::IndexBusy && is_busy(
                    *old(self),
                    snapshot.files@.len() as int,
                    snapshot.dirs@.len() as int,
                ) && final(self).sync_data == old(self).sync_data,
            },
    {
        match self.reserve_index(snapshot.files.len(), snapshot.dirs.len()) {
            Err(e) => Err(e),
            Ok(()) => {
                let ghost g = self.sync_data;
                let ghost s = snapshot;
                assert(adopt::grown(
                    old(self).sync_data,
                    g,
                    s.files@.len() as int,
                    s.dirs@.len() as int,
                ));
                let (layer, added) = self.sync_data.append_snapshot(snapshot);
                assert(attach::is_attached(g, self.sync_data, s, layer, added));
                assert(layer_imported(old(self).sync_data, self.sync_data, s, layer));
                Ok(layer)
            },
        }
    }

    /// Replaces the base scan with `snapshot`, keeping explicit overlay layers.
    /// `frecency` holds what is known of each of its files.
    pub fn import_base(
        &mut self,
        snapshot: LayerSnapshot,
        frecency: Option<&Vec<Option<FrecencyScores>>>,
    ) -> (r: Result<(), Error>)
        requires
            old(self).wf(),
            snapshot.wf(),
            frecency matches Some(scores) ==> scores@.len() == snapshot.files@.len(),
            snapshot.files@.len() + old(self).sync_data.files.items@.len() + MAX_OVERFLOW_FILES
                <= u32::MAX,
            snapshot.dirs@.len() + 3 * old(self).sync_data.dirs.items@.len() + MAX_OVERFLOW_FILES
                <= u32::MAX,
            forall|id: LayerId| #[trigger] old(self).sync_data.can_export(id),
        ensures
            final(self).wf(),
            final(self).post_scan_indexing_active == old(self).post_scan_indexing_active,
            match r {
                Ok(_) => !old(self).post_scan_indexing_active && exists|base: FileSync| #[trigger]
                    restore::is_restored(
                        snapshot,
                        restore::scores_of(frecency),
                        base,
                    ) && is_committed(base, old(self).sync_data, final(self).sync_data) && (
                    restore::ordered_base(snapshot) ==> base.ordered()),
                Err(e) => e == Error::IndexBusy && old(self).post_scan_indexing_active && final(
                    self).sync_data == old(self).sync_data,
            },
    {
        if self.post_scan_indexing_active {
            return Err(Error::IndexBusy);
        }
        let sync = FileSync::from_snapshot(snapshot, frecency);
        proof {
            let s = choose|s: LayerSnapshot| #[trigger]
                restore::is_scored(snapshot, restore::scores_of(frecency), s) && restore::has_rows(
                    s,
                    sync,
                );
            assert(sync.dirs.items@.len() == sync.dir_models().len() == s.dir_models().len());
        }
        self.commit_new_sync(sync);
        Ok(())
    }

    /// Puts a new base scan in place of the old one, with the explicit overlays
    /// of the old one on top.
    pub fn commit_new_sync(&mut self, new_sync: FileSync)
        requires
            old(self).wf(),
            new_sync.wf(),
            new_sync.layers.layers@.len() == 1,
            new_sync.can_adopt(old(self).sync_data),
        ensures
            final(self).wf(),
            final(self).post_scan_indexing_active == old(self).post_scan_indexing_active,
            is_committed(new_sync, old(self).sync_data, final(self).sync_data),
    {
        let mut sync = new_sync;
        sync.adopt_overlays(&self.sync_data);
        self.sync_data = sync;
    }

    /// Copies the live files of `layer` (0 = base scan) into a snapshot. `None`
    /// for unknown ids or when the base has not been scanned yet.
    pub fn export_layer(&self, layer: LayerId) -> (r: Option<LayerSnapshot>)
        requires
            self.wf(),
            self.sync_data.can_export(layer),
        ensures
            is_exported(self.sync_data, layer, r),
    {
        self.sync_data.export_layer(layer)
    }

    /// Exports `layer` and appends the stored form to `out`; returns the number
    /// of bytes.
    pub fn save_layer(&self, layer: LayerId, out: &mut Vec<u8>) -> (r: Result<u64, Error>)
        requires
            self.wf(),
            self.sync_data.can_export(layer),
        ensures
            match r {
                Ok(written) => exists|s: LayerSnapshot| #[trigger]
                    is_exported(self.sync_data, layer, Some(s)) && final(out)@ == old(out)@
                        + codec::snapshot_bytes(s) && written == codec::snapshot_bytes(s).len(),
                Err(e) => e == Error::LayerFormat(LayerFormatError::NoSuchLayer) && is_exported(
                    self.sync_data,
                    layer,
                    None,
                ) && *final(out) == *old(out),
            },
    {
        match self.export_layer(layer) {
            Some(snapshot) => Ok(snapshot.write_to(out)),
            None => Err(Error::LayerFormat(LayerFormatError::NoSuchLayer)),
        }
    }

    /// Makes room for more rows, unless a post-scan pass holds on to the tables.
    fn reserve_index(&mut self, files: usize, dirs: usize) -> (r: Result<(), Error>)
        requires
            old(self).wf(),
            old(self).sync_data.files.items@.len() + files + MAX_OVERFLOW_FILES <= usize::MAX,
            old(self).sync_data.dirs.items@.len() + dirs + MAX_OVERFLOW_FILES <= usize::MAX,
        ensures
            final(self).wf(),
            final(self).post_scan_indexing_active == old(self).post_scan_indexing_active,
            match r {
                Ok(_) => !is_busy(*old(self), files as int, dirs as int) && adopt::grown(
                    old(self).sync_data,
                    final(self).sync_data,
                    files as int,
                    dirs as int,
                ) && final(self).sync_data.file_models() == old(self).sync_data.file_models()
                    && final(self).sync_data.dir_models() == old(self).sync_data.dir_models() && (
                old(self).sync_data.ordered() ==> final(self).sync_data.ordered()),
                Err(e) => e == Error::IndexBusy && is_busy(*old(self), files as int, dirs as int)
                    && *final(self) == *old(self),
            },
    {
        let growth: bool = self.sync_data.files.len() + files > self.sync_data.files.capacity()
            || self.sync_data.dirs.len() + dirs > self.sync_data.dirs.capacity();
        if !growth {
            return Ok(());
        }
        if self.post_scan_indexing_active {
            return Err(Error::IndexBusy);
        }
        let _ = self.sync_data.ensure_capacity(files, dirs);
        Ok(())
    }
}

/// The entries joined the writable layer, in tables of any order with room for
/// them.
pub open spec fn entries_joined(
    before: FileSync,
    after: FileSync,
    entries: Seq<IndexEntry<'_>>,
    added: usize,
) -> bool {
    exists|g: FileSync| #[trigger]
        entries::is_joined(g, after, entries, added) && adopt::grown(
            before,
            g,
            entries.len() as int,
            entries.len() as int,
        )
}

/// What that comes to where the tables are in order.
pub open spec fn entries_added(
    before: FileSync,
    after: FileSync,
    entries: Seq<IndexEntry<'_>>,
    added: usize,
) -> bool {
    exists|g: FileSync| #[trigger]
        entries::is_extended(g, after, entries, added) && adopt::grown(
            before,
            g,
            entries.len() as int,
            entries.len() as int,
        )
}

/// `snapshot` became the new top layer, in tables with room for it.
pub open spec fn layer_imported(
    before: FileSync,
    after: FileSync,
    snapshot: LayerSnapshot,
    layer: LayerId,
) -> bool {
    exists|g: FileSync, added: usize| #[trigger]
        attach::is_attached(g, after, snapshot, layer, added) && adopt::grown(
            before,
            g,
            snapshot.files@.len() as int,
            snapshot.dirs@.len() as int,
        )
}

/// The tables would have to grow while a post-scan pass holds on to them.
pub open spec fn is_busy(picker: FilePicker, files: int, dirs: int) -> bool {
    picker.post_scan_indexing_active && needs_growth(picker.sync_data, files, dirs)
}

/// What an export of `layer` gives.
pub open spec fn is_exported(sync: FileSync, layer: LayerId, r: Option<LayerSnapshot>) -> bool {
    match r {
        Some(s) => s.wf() && if layer == 0 {
            sync.chunked_paths is Some && export::is_base_export(sync, s)
        } else {
            sync.layers.has_id(layer) && export::is_export(sync, layer, s)
        },
        None => if layer == 0 {
            sync.chunked_paths is None
        } else {
            !sync.layers.has_id(layer)
        },
    }
}

/// `after` is `base` with the explicit overlays of `before` on top.
pub open spec fn is_committed(base: FileSync, before: FileSync, after: FileSync) -> bool {
    &&& exists|states: Seq<FileSync>| #[trigger]
        adopt::is_adoption(states, before) && states[0] == base && states.last() == after
    &&& base.ordered() && before.ordered() ==> adopt::adopted_upto(
        base,
        after,
        before,
        before.layers.layers@.len() as int,
    )
}

/// Which files a layer owns.
proof fn lemma_file_layer(sync: FileSync, layer: LayerId, i: int)
    requires
        sync.wf(),
        0 <= i < sync.files.items@.len(),
    ensures
        layer == 0 ==> (sync.files.items@[i].layer() == 0 <==> i < sync.base_count),
        sync.layers.has_id(layer) ==> (sync.files.items@[i].layer() == layer
            <==> sync.layers.file_span(layer - 1, sync.files.items@.len() as int).0 <= i
            < sync.layers.file_span(layer - 1, sync.files.items@.len() as int).1),
        layer != 0 && !sync.layers.has_id(layer) ==> sync.files.items@[i].layer() != layer,
{
    assert(sync.file_ok(i));
    let k = sync.files.items@[i].layer();
    let starts = sync.file_starts();
    if k != 0 {
        assert(starts[0] <= starts[k - 1]);
    }
    if sync.layers.has_id(layer) {
        arrange::lemma_span_layer(sync, layer - 1, i);
        arrange::lemma_span(sync, layer - 1);
    }
}

/// A base scan that is exported and imported again has the live files it had,
/// in the order it had them, and all of its directories.
pub proof fn law_base_survives_export(sync: FileSync, s: LayerSnapshot, r: FileSync)
    requires
        sync.wf(),
        is_exported(sync, 0, Some(s)),
        restore::is_restored(s, None, r),
    ensures
        ({
            let live = export::live_slots(sync.file_models(), 0, sync.base_count as int);
            &&& r.base_count == live.len()
            &&& r.file_models().len() == live.len()
            &&& forall|t: int|
                0 <= t < live.len() ==> r.file_models()[t] == sync.file_models()[#[trigger] live[t]]
            &&& r.dir_models().len() == sync.base_dirs_count
            &&& forall|x: int|
                0 <= x < sync.base_dirs_count ==> (#[trigger] r.dir_models()[x]).path
                    == sync.dir_models()[x].path && !r.dir_models()[x].deleted
        }),
{
    let scored = choose|x: LayerSnapshot| #[trigger]
        restore::is_scored(s, None, x) && restore::has_rows(x, r);
    let live = export::live_slots(sync.file_models(), 0, sync.base_count as int);
    assert forall|t: int| 0 <= t < live.len() implies r.file_models()[t]
        == sync.file_models()[#[trigger] live[t]] by {
        assert(scored.files@[t] == s.files@[t]);
        assert(scored.file_models()[t] == s.file_models()[t]);
    }
    assert forall|x: int| 0 <= x < sync.base_dirs_count implies (
    #[trigger] r.dir_models()[x]).path == sync.dir_models()[x].path
        && !r.dir_models()[x].deleted by {
        assert(scored.dirs@[x].path == s.dirs@[x].path);
        assert(s.dir_models()[x].path == sync.dir_models()[x].path);
    }
}

/// What [`FilePicker::save_layer`] writes loads again, with the same rows.
pub proof fn law_saved_layers_load(
    sync: FileSync,
    layer: LayerId,
    s: LayerSnapshot,
    back: LayerSnapshot,
)
    requires
        is_exported(sync, layer, Some(s)),
        s.label_bytes().len() <= u16::MAX,
    ensures
        codec::failure(codec::snapshot_bytes(s)) is None,
        codec::decodes(codec::snapshot_bytes(s), back) ==> codec::same_stored(back, s),
{
    codec::law_snapshot_round_trip(s, back);
}

} // verus!
