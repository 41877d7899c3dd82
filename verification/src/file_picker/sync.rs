//! The tables of the index and lookups in them.

use crate::bytes;
use crate::bytes::Rank;
use crate::index::layers::{LayerId, LayerStack, LayerStore};
use crate::index::path_index;
use crate::index::path_index::{PathIndex, SlotPaths};
use crate::index::snapshot::filename_offset;
use crate::simd_path::{ChunkedPathStore, ChunkedString};
use crate::stable_vec::StableVec;
use crate::types;
use crate::types::{DirItem, FileItem};
use vstd::prelude::*;

verus! {

/// Every file and directory of the index.
pub struct FileSync {
    /// The base scan, then the overlays one after another.
    pub files: StableVec<FileItem>,
    /// Base files that come first because their content can be indexed.
    pub indexable_count: usize,
    pub base_count: usize,
    pub live_count: usize,
    pub dirs: StableVec<DirItem>,
    pub base_dirs_count: usize,
    pub live_dirs_count: usize,
    pub layers: LayerStack,
    pub open_file_index: PathIndex,
    pub overlay_dir_index: PathIndex,
    /// Arena of the base scan; `None` before the first scan.
    pub chunked_paths: Option<ChunkedPathStore>,
}

/// The arena that rows of `layer` point into.
pub open spec fn arena_of(
    layers: LayerStack,
    base: Option<ChunkedPathStore>,
    layer: LayerId,
) -> Option<ChunkedPathStore> {
    if layer == 0 {
        base
    } else if layers.has_id(layer) {
        layers.layers@[layer - 1].store.arena()
    } else {
        None
    }
}

/// `p` names a path in the arena of `layer`.
pub open spec fn named(
    layers: LayerStack,
    base: Option<ChunkedPathStore>,
    layer: LayerId,
    p: ChunkedString,
) -> bool {
    arena_of(layers, base, layer) matches Some(arena) && arena.wf() && arena.names_path(p)
}

/// The path that `p` names in the arena of `layer`.
pub open spec fn text_in(
    layers: LayerStack,
    base: Option<ChunkedPathStore>,
    layer: LayerId,
    p: ChunkedString,
) -> Seq<u8> {
    arena_of(layers, base, layer)->0.path(p)
}

/// The file table, for reading paths.
pub struct FileSlots<'a> {
    pub files: &'a Vec<FileItem>,
    pub layers: &'a LayerStack,
    pub base: &'a Option<ChunkedPathStore>,
}

/// The directory table, for reading paths.
pub struct DirSlots<'a> {
    pub dirs: &'a Vec<DirItem>,
    pub layers: &'a LayerStack,
    pub base: &'a Option<ChunkedPathStore>,
}

/// Reads a path of `layer`.
pub fn read_path(
    layers: &LayerStack,
    base: &Option<ChunkedPathStore>,
    layer: LayerId,
    p: &ChunkedString,
) -> (r: Vec<u8>)
    requires
        named(*layers, *base, layer, *p),
    ensures
        r@ == text_in(*layers, *base, layer, *p),
{
    if layer == 0 {
        match base {
            Some(arena) => p.read(arena),
            None => Vec::new(),
        }
    } else {
        match &layers.layers[layer as usize - 1].store {
            LayerStore::Open(Some(builder)) => p.read(&builder.store),
            LayerStore::Open(None) => Vec::new(),
            LayerStore::Sealed(arena) => p.read(arena),
        }
    }
}

impl<'a> SlotPaths for FileSlots<'a> {
    open spec fn readable(&self, slot: int) -> bool {
        0 <= slot < self.files@.len() && named(
            *self.layers,
            *self.base,
            self.files@[slot].layer(),
            self.files@[slot].path,
        )
    }

    open spec fn path_at(&self, slot: int) -> Seq<u8> {
        text_in(*self.layers, *self.base, self.files@[slot].layer(), self.files@[slot].path)
    }

    fn read_slot(&self, slot: usize) -> Vec<u8> {
        let file = &self.files[slot];
        read_path(self.layers, self.base, file.layer_id(), &file.path)
    }
}

impl<'a> SlotPaths for DirSlots<'a> {
    open spec fn readable(&self, slot: int) -> bool {
        0 <= slot < self.dirs@.len() && named(
            *self.layers,
            *self.base,
            self.dirs@[slot].layer(),
            self.dirs@[slot].path,
        )
    }

    open spec fn path_at(&self, slot: int) -> Seq<u8> {
        text_in(*self.layers, *self.base, self.dirs@[slot].layer(), self.dirs@[slot].path)
    }

    fn read_slot(&self, slot: usize) -> Vec<u8> {
        let dir = &self.dirs[slot];
        read_path(self.layers, self.base, dir.layer_id(), &dir.path)
    }
}

/// What a row of the file table says.
pub struct FileModel {
    pub path: Seq<u8>,
    pub filename_offset: u16,
    pub size: u64,
    pub modified: u64,
    pub binary: bool,
    pub deleted: bool,
    pub layer: LayerId,
    pub parent: u32,
    pub access_frecency: i16,
    pub modification_frecency: i16,
    pub git_recency: i16,
    pub git_modified: bool,
}

/// What a row of the directory table says.
pub struct DirModel {
    pub path: Seq<u8>,
    pub last_segment_offset: u16,
    pub deleted: bool,
    pub layer: LayerId,
    pub frecency: i32,
}

pub open spec fn file_model(f: FileItem, path: Seq<u8>) -> FileModel {
    FileModel {
        path,
        filename_offset: f.path.filename_offset,
        size: f.size,
        modified: f.modified,
        binary: f.binary(),
        deleted: f.deleted(),
        layer: f.layer(),
        parent: f.parent_dir_index,
        access_frecency: f.access_frecency_score,
        modification_frecency: f.modification_frecency_score,
        git_recency: f.git_recency_score,
        git_modified: f.git_modified,
    }
}

pub open spec fn dir_model(d: DirItem, path: Seq<u8>) -> DirModel {
    DirModel {
        path,
        last_segment_offset: d.path.filename_offset,
        deleted: d.deleted(),
        layer: d.layer(),
        frecency: d.max_access_frecency,
    }
}

impl FileModel {
    pub open spec fn key(self) -> types::PathKey {
        types::path_key(self.path, self.filename_offset as int)
    }
}

/// `(dir, name)` order over a range of files.
pub open spec fn keys_ascend(files: Seq<FileModel>, start: int, end: int) -> bool {
    forall|i: int, j: int|
        start <= i < j < end ==> types::key_le(
            (#[trigger] files[i]).key(),
            (#[trigger] files[j]).key(),
        )
}

/// Layers start in order, the first where the base ends, and none behind the
/// end of the table.
pub open spec fn starts_in_order(starts: Seq<usize>, base: int, len: int) -> bool {
    &&& starts.len() > 0
    &&& starts[0] == base
    &&& forall|a: int, b: int|
        0 <= a <= b < starts.len() ==> #[trigger] starts[a] <= #[trigger] starts[b] <= len
}

/// Slot `i` of a table belongs to `layer`.
pub open spec fn slot_of_layer(starts: Seq<usize>, i: int, layer: LayerId) -> bool {
    if layer == 0 {
        i < starts[0]
    } else {
        &&& layer <= starts.len()
        &&& starts[layer - 1] <= i
        &&& layer < starts.len() ==> i < starts[layer as int]
    }
}

pub open spec fn live_files(files: Seq<FileModel>, n: int) -> nat
    decreases n,
{
    if n <= 0 {
        0
    } else {
        live_files(files, n - 1) + if files[n - 1].deleted {
            0nat
        } else {
            1
        }
    }
}

pub open spec fn live_dirs(dirs: Seq<DirModel>, n: int) -> nat
    decreases n,
{
    if n <= 0 {
        0
    } else {
        live_dirs(dirs, n - 1) + if dirs[n - 1].deleted {
            0nat
        } else {
            1
        }
    }
}

impl FileSync {
    pub open spec fn file_slots(&self) -> FileSlots<'_> {
        FileSlots { files: &self.files.items, layers: &self.layers, base: &self.chunked_paths }
    }

    pub open spec fn dir_slots(&self) -> DirSlots<'_> {
        DirSlots { dirs: &self.dirs.items, layers: &self.layers, base: &self.chunked_paths }
    }

    pub open spec fn file_text(&self, i: int) -> Seq<u8> {
        self.file_slots().path_at(i)
    }

    pub open spec fn dir_text(&self, i: int) -> Seq<u8> {
        self.dir_slots().path_at(i)
    }

    /// The rows of the file table.
    pub open spec fn file_models(&self) -> Seq<FileModel> {
        Seq::new(
            self.files.items@.len(),
            |i: int| file_model(self.files.items@[i], self.file_text(i)),
        )
    }

    /// The rows of the directory table.
    pub open spec fn dir_models(&self) -> Seq<DirModel> {
        Seq::new(
            self.dirs.items@.len(),
            |i: int| dir_model(self.dirs.items@[i], self.dir_text(i)),
        )
    }

    pub open spec fn file_starts(&self) -> Seq<usize> {
        Seq::new(self.layers.layers@.len(), |i: int| self.layers.layers@[i].files_start)
    }

    pub open spec fn dir_starts(&self) -> Seq<usize> {
        Seq::new(self.layers.layers@.len(), |i: int| self.layers.layers@[i].dirs_start)
    }

    /// File `i` names a path, lies in the range of its layer and has a parent.
    pub open spec fn file_ok(&self, i: int) -> bool {
        &&& self.file_slots().readable(i)
        &&& slot_of_layer(self.file_starts(), i, self.files.items@[i].layer())
        &&& self.files.items@[i].parent_dir_index < self.dirs.items@.len()
        &&& i < self.base_count ==> self.files.items@[i].parent_dir_index < self.base_dirs_count
    }

    /// Directory `i` names a path and lies in the range of its layer.
    pub open spec fn dir_ok(&self, i: int) -> bool {
        &&& self.dir_slots().readable(i)
        &&& slot_of_layer(self.dir_starts(), i, self.dirs.items@[i].layer())
    }

    /// What holds of the tables whatever was loaded into them.
    pub open spec fn wf(&self) -> bool {
        &&& self.files.wf()
        &&& self.dirs.wf()
        &&& self.files.items@.len() <= u32::MAX
        &&& self.dirs.items@.len() <= u32::MAX
        &&& self.layers.wf()
        &&& self.layers.layers@.len() <= 4
        &&& forall|i: int|
            0 <= i < self.layers.layers@.len() - 1 ==> (
            #[trigger] self.layers.layers@[i]).store is Sealed
        &&& self.chunked_paths matches Some(store) ==> store.wf()
        &&& self.indexable_count <= self.base_count
        &&& starts_in_order(
            self.file_starts(),
            self.base_count as int,
            self.files.items@.len() as int,
        )
        &&& starts_in_order(
            self.dir_starts(),
            self.base_dirs_count as int,
            self.dirs.items@.len() as int,
        )
        &&& forall|i: int| 0 <= i < self.files.items@.len() ==> #[trigger] self.file_ok(i)
        &&& forall|i: int| 0 <= i < self.dirs.items@.len() ==> #[trigger] self.dir_ok(i)
        &&& self.live_count == live_files(self.file_models(), self.files.items@.len() as int)
        &&& self.live_dirs_count == live_dirs(self.dir_models(), self.dirs.items@.len() as int)
        &&& self.open_file_index.consistent(self.file_slots())
        &&& self.open_file_index.indexed_upto <= self.files.items@.len()
        &&& self.overlay_dir_index.consistent(self.dir_slots())
        &&& self.overlay_dir_index.indexed_upto <= self.dirs.items@.len()
    }

    /// What holds on top of that of tables filled in order: paths and
    /// directories occur once, files name their directories, and what is said
    /// to be sorted is.
    pub open spec fn ordered(&self) -> bool {
        let files = self.file_models();
        let dirs = self.dir_models();
        &&& forall|i: int, j: int|
            0 <= i < j < files.len() ==> (#[trigger] files[i]).path != (#[trigger] files[j]).path
        &&& forall|i: int, j: int|
            0 <= i < j < dirs.len() ==> (#[trigger] dirs[i]).path != (#[trigger] dirs[j]).path
        &&& forall|i: int| 0 <= i < files.len() ==> tidy_file(#[trigger] files[i], dirs)
        &&& keys_ascend(files, 0, self.indexable_count as int)
        &&& keys_ascend(files, self.indexable_count as int, self.base_count as int)
        &&& forall|i: int, j: int|
            0 <= i < j < self.base_dirs_count ==> bytes::lex_le(
                (#[trigger] dirs[i]).path,
                (#[trigger] dirs[j]).path,
            )
        &&& forall|l: int|
            0 <= l < self.layers.layers@.len() && (#[trigger] self.layers.layers@[l]).sorted
                ==> keys_ascend(
                files,
                self.layers.file_span(l, files.len() as int).0,
                self.layers.file_span(l, files.len() as int).1,
            )
    }

    /// Some file has this path.
    pub open spec fn has_file(&self, len: int, path: Seq<u8>) -> bool {
        path_index::holds_path(self.file_slots(), 0, len, path)
    }

    /// Some directory has this path.
    pub open spec fn has_dir(&self, path: Seq<u8>) -> bool {
        path_index::holds_path(self.dir_slots(), 0, self.dirs.items@.len() as int, path)
    }

    /// The files of layer `l`, among the first `len`, hold the path.
    pub open spec fn layer_holds(&self, l: int, len: int, path: Seq<u8>) -> bool {
        path_index::holds_path(
            self.file_slots(),
            self.layers.file_span(l, len).0,
            self.layers.file_span(l, len).1,
            path,
        )
    }

    /// No part of the first `len` files in which a lookup can be relied on
    /// holds the path: neither a layer that is not said to be sorted, nor a
    /// range that is in order.
    pub open spec fn missed(&self, len: int, path: Seq<u8>) -> bool {
        let files = self.file_models();
        &&& searchable(files, 0, self.indexable_count as int) ==> !path_index::holds_path(
            self.file_slots(),
            0,
            self.indexable_count as int,
            path,
        )
        &&& searchable(files, self.indexable_count as int, self.base_count as int)
            ==> !path_index::holds_path(
            self.file_slots(),
            self.indexable_count as int,
            self.base_count as int,
            path,
        )
        &&& forall|l: int|
            0 <= l < self.layers.layers@.len() && (!self.layers.layers@[l].sorted || searchable(
                files,
                self.layers.file_span(l, len).0,
                self.layers.file_span(l, len).1,
            )) ==> !#[trigger] self.layer_holds(l, len, path)
    }

    /// What a lookup among the first `len` files may find: a file with the
    /// path, or none where it is missed.
    pub open spec fn finds_file(&self, len: int, path: Seq<u8>, found: Option<int>) -> bool {
        match found {
            Some(i) => 0 <= i < len && self.file_text(i) == path,
            None => self.missed(len, path),
        }
    }

    /// Neither the overlays nor the directories of the base scan, where those
    /// are in order, hold the path.
    pub open spec fn missed_dir(&self, path: Seq<u8>) -> bool {
        let dirs = self.dir_models();
        &&& (forall|i: int, j: int|
            0 <= i < j < self.base_dirs_count ==> bytes::lex_le(
                (#[trigger] dirs[i]).path,
                (#[trigger] dirs[j]).path,
            )) ==> !path_index::holds_path(
            self.dir_slots(),
            0,
            self.base_dirs_count as int,
            path,
        )
        &&& !path_index::holds_path(
            self.dir_slots(),
            self.base_dirs_count as int,
            dirs.len() as int,
            path,
        )
    }

    /// What a lookup of a directory may find.
    pub open spec fn finds_dir(&self, path: Seq<u8>, found: Option<int>) -> bool {
        match found {
            Some(i) => 0 <= i < self.dir_models().len() && self.dir_text(i) == path,
            None => self.missed_dir(path),
        }
    }

    /// Everything but the hash indices equals `other`.
    pub open spec fn same_tables(&self, other: FileSync) -> bool {
        &&& self.files == other.files
        &&& self.indexable_count == other.indexable_count
        &&& self.base_count == other.base_count
        &&& self.live_count == other.live_count
        &&& self.dirs == other.dirs
        &&& self.base_dirs_count == other.base_dirs_count
        &&& self.live_dirs_count == other.live_dirs_count
        &&& self.layers == other.layers
        &&& self.chunked_paths == other.chunked_paths
    }
}

/// The file's last segment starts behind its last `/`, and its parent is the
/// directory in front of it.
pub open spec fn tidy_file(f: FileModel, dirs: Seq<DirModel>) -> bool {
    &&& f.filename_offset == bytes::after_last_slash(f.path)
    &&& f.parent < dirs.len()
    &&& dirs[f.parent as int].path == f.path.take(f.filename_offset as int)
}


/// The files of a range are in `(dir, name)` order and cut behind their last
/// `/`.
pub open spec fn searchable(files: Seq<FileModel>, start: int, end: int) -> bool {
    &&& keys_ascend(files, start, end)
    &&& forall|i: int|
        start <= i < end ==> (#[trigger] files[i]).filename_offset == bytes::after_last_slash(
            files[i].path,
        )
}

proof fn lemma_not_below(a: FileModel, mid: FileModel, path: Seq<u8>, fo: int)
    requires
        fo == bytes::after_last_slash(path),
        a.filename_offset == bytes::after_last_slash(a.path),
        types::key_le(a.key(), mid.key()),
        !types::key_le(types::path_key(path, fo), mid.key()),
    ensures
        a.path != path,
{
}

proof fn lemma_not_above(a: FileModel, mid: FileModel, path: Seq<u8>, fo: int)
    requires
        fo == bytes::after_last_slash(path),
        a.filename_offset == bytes::after_last_slash(a.path),
        types::key_le(mid.key(), a.key()),
        !types::key_le(mid.key(), types::path_key(path, fo)),
    ensures
        a.path != path,
{
}

impl FileSync {
    /// Reads the path of file `i`.
    pub fn read_file(&self, i: usize) -> (r: Vec<u8>)
        requires
            self.wf(),
            i < self.files.items@.len(),
        ensures
            r@ == self.file_text(i as int),
    {
        assert(self.file_ok(i as int));
        let file = &self.files.items[i];
        read_path(&self.layers, &self.chunked_paths, file.layer_id(), &file.path)
    }

    /// Reads the path of directory `i`.
    pub fn read_dir(&self, i: usize) -> (r: Vec<u8>)
        requires
            self.wf(),
            i < self.dirs.items@.len(),
        ensures
            r@ == self.dir_text(i as int),
    {
        assert(self.dir_ok(i as int));
        let dir = &self.dirs.items[i];
        read_path(&self.layers, &self.chunked_paths, dir.layer_id(), &dir.path)
    }

    /// Binary search for a path in a range of files.
    pub fn search_sorted(&self, start: usize, end: usize, path: &[u8]) -> (r: Option<usize>)
        requires
            self.wf(),
            start <= end <= self.files.items@.len(),
        ensures
            match r {
                Some(i) => start <= i < end && self.file_text(i as int) == path@,
                None => searchable(self.file_models(), start as int, end as int)
                    ==> !path_index::holds_path(
                    self.file_slots(),
                    start as int,
                    end as int,
                    path@,
                ),
            },
    {
        let ghost files = self.file_models();
        let ghost sound = searchable(files, start as int, end as int);
        let offset: usize = filename_offset(path);
        let mut lo: usize = start;
        let mut hi: usize = end;
        while lo < hi
            invariant
                self.wf(),
                files == self.file_models(),
                sound == searchable(files, start as int, end as int),
                offset == bytes::after_last_slash(path@),
                offset <= path@.len(),
                start <= lo <= hi <= end <= self.files.items@.len(),
                sound ==> forall|i: int|
                    start <= i < lo || hi <= i < end ==> (#[trigger] files[i]).path != path@,
            decreases hi - lo,
        {
            let mid: usize = lo + (hi - lo) / 2;
            let text = self.read_file(mid);
            assert(self.file_ok(mid as int));
            let mid_offset: usize = self.files.items[mid].path.filename_offset as usize;
            match types::path_order(text.as_slice(), mid_offset, path, offset) {
                Rank::Level => {
                    return Some(mid);
                },
                Rank::Before => {
                    proof {
                        if sound {
                            assert forall|i: int| start <= i <= mid implies (
                            #[trigger] files[i]).path != path@ by {
                                types::lemma_key_total(files[mid as int].key(), files[mid as int].key());
                                if i < mid {
                                    assert(types::key_le(files[i].key(), files[mid as int].key()));
                                }
                                lemma_not_below(
                                    files[i],
                                    files[mid as int],
                                    path@,
                                    offset as int,
                                );
                            }
                        }
                    }
                    lo = mid + 1;
                },
                Rank::After => {
                    proof {
                        if sound {
                            assert forall|i: int| mid <= i < end implies (
                            #[trigger] files[i]).path != path@ by {
                                types::lemma_key_total(files[mid as int].key(), files[mid as int].key());
                                if mid < i {
                                    assert(types::key_le(files[mid as int].key(), files[i].key()));
                                }
                                lemma_not_above(
                                    files[i],
                                    files[mid as int],
                                    path@,
                                    offset as int,
                                );
                            }
                        }
                    }
                    hi = mid;
                },
            }
        }
        proof {
            if sound {
                assert forall|i: int| start <= i < end implies #[trigger] self.file_slots().path_at(i)
                    != path@ by {
                    assert(files[i].path == self.file_text(i));
                }
            }
        }
        None
    }

    /// The file with this path among the first `files_len`, which hold the
    /// base scan.
    pub fn lookup_relative_path(&mut self, path: &[u8], files_len: usize) -> (r: Option<usize>)
        requires
            old(self).wf(),
            old(self).base_count <= files_len <= old(self).files.items@.len(),
        ensures
            final(self).wf(),
            final(self).same_tables(*old(self)),
            match r {
                Some(i) => i < files_len && old(self).file_text(i as int) == path@,
                None => old(self).missed(files_len as int, path@) && (old(self).ordered() ==> !old(
                    self,
                ).has_file(files_len as int, path@)),
            },
    {
        let ghost before = *self;
        let ghost files = self.file_models();
        proof {
            if before.ordered() {
                assert forall|i: int| 0 <= i < files.len() implies (
                #[trigger] files[i]).filename_offset == bytes::after_last_slash(
                    files[i].path,
                ) by {
                    assert(tidy_file(files[i], self.dir_models()));
                }
                assert(searchable(files, 0, self.indexable_count as int));
                assert(searchable(files, self.indexable_count as int, self.base_count as int));
            }
            assert(self.file_starts()[0] <= self.file_starts()[0] <= self.files.items@.len());
        }
        if let Some(i) = self.search_sorted(0, self.indexable_count, path) {
            return Some(i);
        }
        if let Some(i) = self.search_sorted(self.indexable_count, self.base_count, path) {
            return Some(i);
        }
        let mut l: usize = 0;
        while l < self.layers.layers.len()
            invariant
                before == *old(self),
                self.wf(),
                self.same_tables(before),
                files == before.file_models(),
                self.base_count <= files_len <= self.files.items@.len(),
                l <= self.layers.layers@.len(),
                searchable(files, 0, before.indexable_count as int) ==> !path_index::holds_path(
                    before.file_slots(),
                    0,
                    before.indexable_count as int,
                    path@,
                ),
                searchable(files, before.indexable_count as int, before.base_count as int)
                    ==> !path_index::holds_path(
                    before.file_slots(),
                    before.indexable_count as int,
                    before.base_count as int,
                    path@,
                ),
                forall|k: int|
                    0 <= k < l && (!before.layers.layers@[k].sorted || searchable(
                        files,
                        before.layers.file_span(k, files_len as int).0,
                        before.layers.file_span(k, files_len as int).1,
                    )) ==> !#[trigger] before.layer_holds(k, files_len as int, path@),
                before.ordered() ==> {
                    &&& forall|i: int|
                        0 <= i < files.len() ==> (#[trigger] files[i]).filename_offset
                            == bytes::after_last_slash(files[i].path)
                    &&& forall|i: int|
                        0 <= i < self.base_count ==> #[trigger] before.file_slots().path_at(i)
                            != path@
                    &&& forall|k: int, i: int|
                        0 <= k < l && #[trigger] in_span(before, k, i, files_len as int)
                            ==> before.file_slots().path_at(i) != path@
                },
            decreases self.layers.layers@.len() - l,
        {
            let (start, end) = match self.layers.file_range((l + 1) as LayerId, files_len) {
                Some(range) => range,
                None => (files_len, files_len),
            };
            let sorted: bool = self.layers.layers[l].sorted;
            assert(self.file_models() =~= files);
            assert(self.file_slots() == before.file_slots());
            if sorted {
                proof {
                    if before.ordered() {
                        assert(searchable(files, start as int, end as int));
                    }
                }
                if let Some(i) = self.search_sorted(start, end, path) {
                    return Some(i);
                }
            } else {
                let slots = FileSlots {
                    files: &self.files.items,
                    layers: &self.layers,
                    base: &self.chunked_paths,
                };
                assert(slots == self.file_slots());
                assert forall|slot: int| start <= slot < end implies #[trigger] slots.readable(
                    slot,
                ) by {
                    assert(self.file_ok(slot));
                }
                let ghost held = *self;
                let found = self.open_file_index.lookup(&slots, start, end, path);
                proof {
                    lemma_same_tables(held, *self);
                }
                if found.is_some() {
                    return found;
                }
            }
            assert(!before.layers.layers@[l as int].sorted || searchable(
                files,
                start as int,
                end as int,
            ) ==> !before.layer_holds(l as int, files_len as int, path@));
            assert forall|i: int| before.ordered() && #[trigger] in_span(
                before,
                l as int,
                i,
                files_len as int,
            ) implies before.file_slots().path_at(i) != path@ by {
                assert(!path_index::holds_path(
                    before.file_slots(),
                    start as int,
                    end as int,
                    path@,
                ));
            }
            l += 1;
        }
        proof {
            if before.ordered() {
                assert forall|i: int| 0 <= i < files_len implies #[trigger] before.file_slots().path_at(
                    i,
                ) != path@ by {
                    if i >= before.base_count {
                        assert(before.file_ok(i));
                        let layer = before.files.items@[i].layer();
                        assert(layer != 0);
                        assert(in_span(before, layer - 1, i, files_len as int));
                    }
                }
            }
        }
        None
    }
}

impl FileSync {
    /// The directory with this path.
    pub fn find_dir_index(&mut self, path: &[u8]) -> (r: Option<usize>)
        requires
            old(self).wf(),
        ensures
            final(self).wf(),
            final(self).same_tables(*old(self)),
            match r {
                Some(i) => i < old(self).dirs.items@.len() && old(self).dir_text(i as int) == path@,
                None => old(self).missed_dir(path@) && (old(self).ordered() ==> !old(self).has_dir(
                    path@,
                )),
            },
    {
        let ghost before = *self;
        let ghost dirs = self.dir_models();
        let ghost sound = forall|i: int, j: int|
            0 <= i < j < before.base_dirs_count ==> bytes::lex_le(
                (#[trigger] dirs[i]).path,
                (#[trigger] dirs[j]).path,
            );
        proof {
            assert(self.dir_starts()[0] <= self.dir_starts()[0] <= self.dirs.items@.len());
        }
        let mut lo: usize = 0;
        let mut hi: usize = self.base_dirs_count;
        while lo < hi
            invariant
                before == *old(self),
                self.wf(),
                *self == before,
                dirs == before.dir_models(),
                sound == (forall|i: int, j: int|
                    0 <= i < j < before.base_dirs_count ==> bytes::lex_le(
                        (#[trigger] dirs[i]).path,
                        (#[trigger] dirs[j]).path,
                    )),
                lo <= hi <= self.base_dirs_count <= self.dirs.items@.len(),
                sound ==> forall|i: int|
                    0 <= i < lo || hi <= i < self.base_dirs_count ==> (#[trigger] dirs[i]).path
                        != path@,
            decreases hi - lo,
        {
            let mid: usize = lo + (hi - lo) / 2;
            let text = self.read_dir(mid);
            match bytes::lex_order(text.as_slice(), path) {
                Rank::Level => {
                    return Some(mid);
                },
                Rank::Before => {
                    proof {
                        if sound {
                            assert forall|i: int| 0 <= i <= mid implies (#[trigger] dirs[i]).path
                                != path@ by {
                                if i < mid {
                                    assert(bytes::lex_le(dirs[i].path, dirs[mid as int].path));
                                    if dirs[i].path == path@ {
                                        bytes::lemma_lex_antisymmetric(path@, text@);
                                    }
                                }
                            }
                        }
                    }
                    lo = mid + 1;
                },
                Rank::After => {
                    proof {
                        if sound {
                            assert forall|i: int| mid <= i < self.base_dirs_count implies (
                            #[trigger] dirs[i]).path != path@ by {
                                if mid < i {
                                    assert(bytes::lex_le(dirs[mid as int].path, dirs[i].path));
                                    if dirs[i].path == path@ {
                                        bytes::lemma_lex_antisymmetric(path@, text@);
                                    }
                                }
                            }
                        }
                    }
                    hi = mid;
                },
            }
        }
        let slots = DirSlots {
            dirs: &self.dirs.items,
            layers: &self.layers,
            base: &self.chunked_paths,
        };
        assert(slots == self.dir_slots());
        assert forall|slot: int|
            self.base_dirs_count <= slot < self.dirs.items@.len() implies #[trigger] slots.readable(
            slot,
        ) by {
            assert(self.dir_ok(slot));
        }
        let found = self.overlay_dir_index.lookup(
            &slots,
            self.base_dirs_count,
            self.dirs.items.len(),
            path,
        );
        proof {
            lemma_same_tables(before, *self);
            if sound && found is None {
                assert forall|i: int|
                    0 <= i < before.base_dirs_count implies #[trigger] before.dir_slots().path_at(i)
                    != path@ by {
                    assert(dirs[i].path == before.dir_text(i));
                }
                assert forall|i: int|
                    0 <= i < before.dirs.items@.len() implies #[trigger] before.dir_slots().path_at(i)
                    != path@ by {
                    if i < before.base_dirs_count {
                        assert(dirs[i].path == before.dir_text(i));
                    }
                }
            }
        }
        found
    }
}

/// Tables stay sound while only their hash indices move.
pub proof fn lemma_same_tables(a: FileSync, b: FileSync)
    requires
        a.wf(),
        b.same_tables(a),
        b.open_file_index.consistent(a.file_slots()),
        b.open_file_index.indexed_upto <= a.files.items@.len(),
        b.overlay_dir_index.consistent(a.dir_slots()),
        b.overlay_dir_index.indexed_upto <= a.dirs.items@.len(),
    ensures
        b.wf(),
        b.file_models() == a.file_models(),
        b.dir_models() == a.dir_models(),
        a.ordered() ==> b.ordered(),
{
    assert(b.file_models() =~= a.file_models());
    assert(b.dir_models() =~= a.dir_models());
    assert(b.file_starts() =~= a.file_starts());
    assert(b.dir_starts() =~= a.dir_starts());
    assert forall|i: int| 0 <= i < b.files.items@.len() implies #[trigger] b.file_ok(i) by {
        assert(a.file_ok(i));
    }
    assert forall|i: int| 0 <= i < b.dirs.items@.len() implies #[trigger] b.dir_ok(i) by {
        assert(a.dir_ok(i));
    }
}

/// Slot `i` lies in the range of layer `k`.
pub open spec fn in_span(sync: FileSync, k: int, i: int, files_len: int) -> bool {
    sync.layers.file_span(k, files_len).0 <= i < sync.layers.file_span(k, files_len).1
}

} // verus!
