//! Adding rows to the writable layer.

use crate::bytes;
use crate::file_picker::arrange;
use crate::file_picker::layer_ops;
use crate::file_picker::sync;
use crate::file_picker::sync::{DirModel, FileModel, FileSync};
use crate::index::layers::{IndexLayer, LayerId, LayerStack};
use crate::index::path_index::SlotPaths;
use crate::index::snapshot;
use crate::index::snapshot::{
    filename_offset, last_segment_offset, normalize_relative_path, EntryRecord, IndexEntry,
};
use crate::simd_path;
use crate::simd_path::{ChunkedString, PATH_BUF_SIZE};
use crate::sorting;
use crate::types::{DirItem, FileItem};
use vstd::prelude::*;

verus! {

pub open spec fn live_dir(d: DirModel) -> DirModel {
    DirModel { deleted: false, ..d }
}

pub open spec fn live_file(f: FileModel) -> FileModel {
    FileModel { deleted: false, ..f }
}

/// The directories, `d` among them live.
pub open spec fn revived(dirs: Seq<DirModel>, d: int) -> Seq<DirModel> {
    dirs.update(d, live_dir(dirs[d]))
}

pub proof fn lemma_live_bound(files: Seq<FileModel>, n: int)
    requires
        0 <= n,
    ensures
        sync::live_files(files, n) <= n,
    decreases n,
{
    if n > 0 {
        lemma_live_bound(files, n - 1);
    }
}

pub proof fn lemma_live_dirs_bound(dirs: Seq<DirModel>, n: int)
    requires
        0 <= n,
    ensures
        sync::live_dirs(dirs, n) <= n,
    decreases n,
{
    if n > 0 {
        lemma_live_dirs_bound(dirs, n - 1);
    }
}

pub proof fn lemma_live_update(files: Seq<FileModel>, i: int, n: int)
    requires
        0 <= i < files.len(),
        0 <= n <= files.len(),
        files[i].deleted,
    ensures
        sync::live_files(files.update(i, live_file(files[i])), n) == sync::live_files(files, n)
            + if i < n {
            1nat
        } else {
            0
        },
    decreases n,
{
    if n > 0 {
        lemma_live_update(files, i, n - 1);
    }
}

proof fn lemma_live_dirs_update(dirs: Seq<DirModel>, i: int, n: int)
    requires
        0 <= i < dirs.len(),
        0 <= n <= dirs.len(),
        dirs[i].deleted,
    ensures
        sync::live_dirs(revived(dirs, i), n) == sync::live_dirs(dirs, n) + if i < n {
            1nat
        } else {
            0
        },
    decreases n,
{
    if n > 0 {
        lemma_live_dirs_update(dirs, i, n - 1);
    }
}

/// Everything but the rows and their counts equals `other`.
pub open spec fn same_frame(a: FileSync, b: FileSync) -> bool {
    &&& b.indexable_count == a.indexable_count
    &&& b.base_count == a.base_count
    &&& b.base_dirs_count == a.base_dirs_count
    &&& b.layers == a.layers
    &&& b.chunked_paths == a.chunked_paths
    &&& b.files.capacity == a.files.capacity
    &&& b.dirs.capacity == a.dirs.capacity
}

/// Tables whose rows only changed their marks are sound.
proof fn lemma_marks(a: FileSync, b: FileSync)
    requires
        a.wf(),
        same_frame(a, b),
        b.open_file_index == a.open_file_index,
        b.overlay_dir_index == a.overlay_dir_index,
        b.files.items@.len() == a.files.items@.len(),
        b.dirs.items@.len() == a.dirs.items@.len(),
        forall|i: int|
            0 <= i < a.files.items@.len() ==> (#[trigger] b.files.items@[i]).same_but_flags(
                a.files.items@[i],
            ) && b.files.items@[i].layer() == a.files.items@[i].layer(),
        forall|i: int|
            0 <= i < a.dirs.items@.len() ==> (#[trigger] b.dirs.items@[i]).same_but_flags(
                a.dirs.items@[i],
            ) && b.dirs.items@[i].layer() == a.dirs.items@[i].layer(),
        b.live_count == sync::live_files(b.file_models(), b.files.items@.len() as int),
        b.live_dirs_count == sync::live_dirs(b.dir_models(), b.dirs.items@.len() as int),
    ensures
        b.wf(),
        forall|i: int|
            0 <= i < a.files.items@.len() ==> #[trigger] b.file_text(i) == a.file_text(i),
        forall|i: int| 0 <= i < a.dirs.items@.len() ==> #[trigger] b.dir_text(i) == a.dir_text(i),
{
    assert(b.file_starts() =~= a.file_starts());
    assert(b.dir_starts() =~= a.dir_starts());
    assert forall|i: int| 0 <= i < b.files.items@.len() implies #[trigger] b.file_ok(i)
        && b.file_slots().path_at(i) == a.file_slots().path_at(i) by {
        assert(a.file_ok(i));
        assert(b.files.items@[i].same_but_flags(a.files.items@[i]));
    }
    assert forall|i: int| 0 <= i < b.dirs.items@.len() implies #[trigger] b.dir_ok(i)
        && b.dir_slots().path_at(i) == a.dir_slots().path_at(i) by {
        assert(a.dir_ok(i));
        assert(b.dirs.items@[i].same_but_flags(a.dirs.items@[i]));
    }
    assert forall|i: int| 0 <= i < a.files.items@.len() implies #[trigger] b.file_text(i)
        == a.file_text(i) by {
        assert(b.file_ok(i));
    }
    assert forall|i: int| 0 <= i < a.dirs.items@.len() implies #[trigger] b.dir_text(i)
        == a.dir_text(i) by {
        assert(b.dir_ok(i));
    }
    assert forall|slot: int|
        a.open_file_index.start <= slot
            < a.open_file_index.indexed_upto implies #[trigger] b.file_slots().path_at(slot)
        == a.file_slots().path_at(slot) by {
        assert(b.file_ok(slot));
    }
    arrange::lemma_consistent(a.open_file_index, a.file_slots(), b.file_slots());
    assert forall|slot: int|
        a.overlay_dir_index.start <= slot
            < a.overlay_dir_index.indexed_upto implies #[trigger] b.dir_slots().path_at(slot)
        == a.dir_slots().path_at(slot) by {
        assert(b.dir_ok(slot));
    }
    arrange::lemma_consistent(a.overlay_dir_index, a.dir_slots(), b.dir_slots());
}

/// Tables stay ordered when rows only change their marks.
proof fn lemma_marks_ordered(a: FileSync, b: FileSync)
    requires
        a.ordered(),
        same_frame(a, b),
        b.file_models().len() == a.file_models().len(),
        b.dir_models().len() == a.dir_models().len(),
        a.base_count <= a.file_models().len(),
        a.base_dirs_count <= a.dir_models().len(),
        a.indexable_count <= a.base_count,
        forall|i: int|
            0 <= i < a.file_models().len() ==> #[trigger] b.file_models()[i] == (FileModel {
                deleted: b.file_models()[i].deleted,
                ..a.file_models()[i]
            }),
        forall|i: int|
            0 <= i < a.dir_models().len() ==> #[trigger] b.dir_models()[i] == (DirModel {
                deleted: b.dir_models()[i].deleted,
                ..a.dir_models()[i]
            }),
    ensures
        b.ordered(),
{
    let fa = a.file_models();
    let fb = b.file_models();
    let da = a.dir_models();
    let db = b.dir_models();
    assert forall|i: int, j: int| 0 <= i < j < fb.len() implies (#[trigger] fb[i]).path != (
    #[trigger] fb[j]).path by {
        assert(fa[i].path != fa[j].path);
    }
    assert forall|i: int, j: int| 0 <= i < j < db.len() implies (#[trigger] db[i]).path != (
    #[trigger] db[j]).path by {
        assert(da[i].path != da[j].path);
    }
    assert forall|i: int| 0 <= i < fb.len() implies sync::tidy_file(#[trigger] fb[i], db) by {
        assert(sync::tidy_file(fa[i], da));
        assert(db[fa[i].parent as int].path == da[fa[i].parent as int].path);
    }
    lemma_marks_keys(fa, fb, 0, a.indexable_count as int);
    lemma_marks_keys(fa, fb, a.indexable_count as int, a.base_count as int);
    assert forall|i: int, j: int| 0 <= i < j < b.base_dirs_count implies bytes::lex_le(
        (#[trigger] db[i]).path,
        (#[trigger] db[j]).path,
    ) by {
        assert(bytes::lex_le(da[i].path, da[j].path));
    }
    assert forall|l: int|
        0 <= l < b.layers.layers@.len() && (
        #[trigger] b.layers.layers@[l]).sorted implies sync::keys_ascend(
        fb,
        b.layers.file_span(l, fb.len() as int).0,
        b.layers.file_span(l, fb.len() as int).1,
    ) by {
        assert(a.layers.layers@[l].sorted);
        crate::index::layers::law_ranges_stay_in_bounds(a.layers, l, fa.len() as int);
        lemma_marks_keys(
            fa,
            fb,
            a.layers.file_span(l, fa.len() as int).0,
            a.layers.file_span(l, fa.len() as int).1,
        );
    }
}

proof fn lemma_marks_keys(fa: Seq<FileModel>, fb: Seq<FileModel>, s: int, e: int)
    requires
        fa.len() == fb.len(),
        0 <= s,
        e <= fa.len(),
        sync::keys_ascend(fa, s, e),
        forall|i: int|
            0 <= i < fa.len() ==> (#[trigger] fb[i]).path == fa[i].path && fb[i].filename_offset
                == fa[i].filename_offset,
    ensures
        sync::keys_ascend(fb, s, e),
{
    assert forall|i: int, j: int| s <= i < j < e implies crate::types::key_le(
        (#[trigger] fb[i]).key(),
        (#[trigger] fb[j]).key(),
    ) by {
        assert(crate::types::key_le(fa[i].key(), fa[j].key()));
    }
}

impl FileSync {
    /// Brings a directory whose files were all deleted back.
    pub fn revive_dir(&mut self, d: u32)
        requires
            old(self).wf(),
            d < old(self).dirs.items@.len(),
        ensures
            final(self).wf(),
            same_frame(*old(self), *final(self)),
            final(self).files.items@.len() == old(self).files.items@.len(),
            final(self).dirs.items@.len() == old(self).dirs.items@.len(),
            final(self).file_models() == old(self).file_models(),
            final(self).dir_models() == revived(old(self).dir_models(), d as int),
            old(self).ordered() ==> final(self).ordered(),
    {
        let ghost a = *self;
        let at: usize = d as usize;
        let mut dir: DirItem = self.dirs.items[at];
        if dir.is_deleted() {
            dir.set_deleted(false);
            proof {
                lemma_live_dirs_bound(a.dir_models(), a.dirs.items@.len() as int);
                lemma_live_dirs_update(a.dir_models(), d as int, a.dirs.items@.len() as int);
                lemma_live_dirs_bound(
                    revived(a.dir_models(), d as int),
                    a.dirs.items@.len() as int,
                );
            }
            self.dirs.items[at] = dir;
            self.live_dirs_count += 1;
        }
        proof {
            assert(self.dir_models() =~= revived(a.dir_models(), d as int)) by {
                assert forall|i: int|
                    0 <= i < self.dirs.items@.len() implies #[trigger] self.dir_models()[i]
                    == revived(a.dir_models(), d as int)[i] by {
                    if i == d {
                        assert(a.dir_ok(i));
                    }
                }
            }
            assert(self.file_models() =~= a.file_models());
            lemma_marks(a, *self);
            if a.ordered() {
                lemma_starts_bound(a);
                lemma_marks_ordered(a, *self);
            }
        }
    }

    /// Brings a tombstoned slot back; `false` when it was already live.
    pub fn revive_file(&mut self, index: usize) -> (r: bool)
        requires
            old(self).wf(),
            index < old(self).files.items@.len(),
        ensures
            final(self).wf(),
            same_frame(*old(self), *final(self)),
            final(self).files.items@.len() == old(self).files.items@.len(),
            final(self).dirs.items@.len() == old(self).dirs.items@.len(),
            r == old(self).file_models()[index as int].deleted,
            r ==> {
                let f = old(self).file_models()[index as int];
                &&& final(self).file_models() == old(self).file_models().update(
                    index as int,
                    live_file(f),
                )
                &&& final(self).dir_models() == revived(old(self).dir_models(), f.parent as int)
            },
            !r ==> *final(self) == *old(self),
            old(self).ordered() ==> final(self).ordered(),
    {
        let ghost a = *self;
        let mut file: FileItem = self.files.items[index];
        assert(self.file_ok(index as int));
        if !file.is_deleted() {
            return false;
        }
        file.set_deleted(false);
        let parent: u32 = file.parent_dir_index;
        proof {
            lemma_live_update(a.file_models(), index as int, a.files.items@.len() as int);
            lemma_live_bound(
                a.file_models().update(index as int, live_file(a.file_models()[index as int])),
                a.files.items@.len() as int,
            );
        }
        self.files.items[index] = file;
        self.live_count += 1;
        proof {
            let f = a.file_models()[index as int];
            assert(self.file_models() =~= a.file_models().update(index as int, live_file(f))) by {
                assert forall|i: int|
                    0 <= i < self.files.items@.len() implies #[trigger] self.file_models()[i]
                    == a.file_models().update(index as int, live_file(f))[i] by {}
            }
            assert(self.dir_models() =~= a.dir_models());
            lemma_marks(a, *self);
            if a.ordered() {
                lemma_starts_bound(a);
                lemma_marks_ordered(a, *self);
            }
        }
        self.revive_dir(parent);
        true
    }
}

pub proof fn lemma_starts_bound(a: FileSync)
    requires
        a.wf(),
    ensures
        a.base_count <= a.files.items@.len(),
        a.base_dirs_count <= a.dirs.items@.len(),
{
    assert(a.file_starts()[0] <= a.file_starts()[0] <= a.files.items@.len());
    assert(a.dir_starts()[0] <= a.dir_starts()[0] <= a.dirs.items@.len());
}


impl FileSync {
    /// Index table entries in use by the top layer.
    pub open spec fn top_slots(&self) -> nat {
        match self.layers.layers@.last().store.arena() {
            Some(store) => store.slots(),
            None => 0,
        }
    }

    pub open spec fn top_layer(&self) -> LayerId {
        self.layers.layers@.len() as LayerId
    }

    /// Writes a path into the arena of the top layer.
    fn add_path(&mut self, text: &[u8], offset: u16) -> (r: ChunkedString)
        requires
            old(self).wf(),
            old(self).layers.layers@.last().store is Open,
            text@.len() < PATH_BUF_SIZE,
            old(self).top_slots() + simd_path::chunk_cost(text@.len()) <= u32::MAX,
            vstd::utf8::valid_utf8(text@),
            offset <= text@.len(),
            vstd::utf8::is_char_boundary(text@, offset as int),
        ensures
            final(self).wf(),
            *final(self) == (FileSync { layers: final(self).layers, ..*old(self) }),
            final(self).layers.layers@.len() == old(self).layers.layers@.len(),
            top_only(old(self).layers, final(self).layers),
            final(self).layers.layers@.last().store is Open,
            !final(self).layers.layers@.last().sorted,
            final(self).top_slots() <= old(self).top_slots() + simd_path::chunk_cost(text@.len()),
            final(self).file_models() == old(self).file_models(),
            final(self).dir_models() == old(self).dir_models(),
            r.filename_offset == offset,
            sync::named(
                final(self).layers,
                final(self).chunked_paths,
                final(self).top_layer(),
                r,
            ),
            sync::text_in(
                final(self).layers,
                final(self).chunked_paths,
                final(self).top_layer(),
                r,
            ) == text@,
            old(self).ordered() ==> final(self).ordered(),
    {
        let ghost a = *self;
        let builder = self.layers.top_builder();
        let ghost start = builder.store;
        let handle = builder.add_bytes(text, offset);
        let ghost end = builder.store;
        proof {
            lemma_top_grew(a, *self, end);
        }
        handle
    }
}

/// At most the top layer's arena and order changed.
pub open spec fn top_only(a: LayerStack, b: LayerStack) -> bool {
    let n = a.layers@.len() as int;
    &&& b.layers@.len() == n
    &&& forall|i: int| 0 <= i < n - 1 ==> #[trigger] b.layers@[i] == a.layers@[i]
    &&& b.layers@.last() == (IndexLayer {
        store: b.layers@.last().store,
        sorted: b.layers@.last().sorted,
        ..a.layers@.last()
    })
}

/// The arena of the top layer grew.
proof fn lemma_top_grew(a: FileSync, b: FileSync, end: simd_path::ChunkedPathStore)
    requires
        a.wf(),
        b == (FileSync { layers: b.layers, ..a }),
        b.layers.layers@.len() == a.layers.layers@.len(),
        forall|i: int|
            0 <= i < a.layers.layers@.len() - 1 ==> #[trigger] b.layers.layers@[i]
                == a.layers.layers@[i],
        b.layers.layers@.last() == (IndexLayer {
            store: b.layers.layers@.last().store,
            sorted: false,
            ..a.layers.layers@.last()
        }),
        b.layers.layers@.last().store is Open,
        b.layers.layers@.last().store.wf(),
        b.layers.layers@.last().store.arena() == Some(end),
        match a.layers.layers@.last().store.arena() {
            Some(start) => end.extends(start),
            None => true,
        },
    ensures
        b.wf(),
        b.file_models() == a.file_models(),
        b.dir_models() == a.dir_models(),
        a.ordered() ==> b.ordered(),
{
    let n = a.layers.layers@.len() as int;
    assert(b.layers.wf()) by {
        assert forall|i: int| 0 <= i < n implies (#[trigger] b.layers.layers@[i]).store.wf() by {
            if i < n - 1 {
                assert(b.layers.layers@[i] == a.layers.layers@[i]);
            }
        }
    }
    assert(arrange::arenas_grow(a.layers, b.layers)) by {
        assert forall|i: int|
            0 <= i < n implies match (#[trigger] a.layers.layers@[i]).store.arena() {
            Some(x) => b.layers.layers@[i].store.arena() matches Some(y) && y.wf() && y.extends(x),
            None => true,
        } by {
            assert(a.layers.layers@[i].store.wf());
            if i < n - 1 {
                assert(b.layers.layers@[i] == a.layers.layers@[i]);
                match a.layers.layers@[i].store.arena() {
                    Some(x) => {
                        assert(x.chunks@.take(x.chunks@.len() as int) =~= x.chunks@);
                        assert(x.indices@.take(x.indices@.len() as int) =~= x.indices@);
                    },
                    None => {},
                }
            }
        }
    }
    arrange::lemma_rows_kept(a, b);
    assert(b.file_starts() =~= a.file_starts()) by {
        assert forall|i: int| 0 <= i < n implies b.file_starts()[i] == a.file_starts()[i] by {
            if i < n - 1 {
                assert(b.layers.layers@[i] == a.layers.layers@[i]);
            }
        }
    }
    assert(b.dir_starts() =~= a.dir_starts()) by {
        assert forall|i: int| 0 <= i < n implies b.dir_starts()[i] == a.dir_starts()[i] by {
            if i < n - 1 {
                assert(b.layers.layers@[i] == a.layers.layers@[i]);
            }
        }
    }
    assert forall|i: int| 0 <= i < b.files.items@.len() implies #[trigger] b.file_ok(i) by {
        assert(a.file_ok(i));
        assert(b.file_slots().readable(i));
    }
    assert forall|i: int| 0 <= i < b.dirs.items@.len() implies #[trigger] b.dir_ok(i) by {
        assert(a.dir_ok(i));
        assert(b.dir_slots().readable(i));
    }
    assert forall|i: int| 0 <= i < n - 1 implies (
    #[trigger] b.layers.layers@[i]).store is Sealed by {
        assert(b.layers.layers@[i] == a.layers.layers@[i]);
    }
    if a.ordered() {
        let len = a.files.items@.len() as int;
        assert forall|l: int|
            0 <= l < n && (#[trigger] b.layers.layers@[l]).sorted implies sync::keys_ascend(
            b.file_models(),
            b.layers.file_span(l, len).0,
            b.layers.file_span(l, len).1,
        ) by {
            assert(l < n - 1);
            assert(a.layers.layers@[l].sorted);
            arrange::lemma_span(a, l);
            arrange::lemma_span(b, l);
        }
    }
}

/// A row more at the end of the file table.
proof fn lemma_file_pushed(a: FileSync, b: FileSync, file: FileItem)
    requires
        a.wf(),
        same_frame(a, b),
        b.files.wf(),
        b.open_file_index == a.open_file_index,
        b.overlay_dir_index == a.overlay_dir_index,
        b.dirs == a.dirs,
        b.live_dirs_count == a.live_dirs_count,
        b.files.items@ == a.files.items@.push(file),
        b.files.items@.len() <= u32::MAX,
        b.live_count == a.live_count + 1,
        !file.deleted(),
        file.layer() == a.top_layer(),
        file.parent_dir_index < a.dirs.items@.len(),
        sync::named(a.layers, a.chunked_paths, file.layer(), file.path),
    ensures
        b.wf(),
        b.file_models() == a.file_models().push(
            sync::file_model(
                file,
                sync::text_in(a.layers, a.chunked_paths, file.layer(), file.path),
            ),
        ),
        b.dir_models() == a.dir_models(),
{
    let n = a.files.items@.len() as int;
    assert(b.file_starts() =~= a.file_starts());
    assert(b.dir_starts() =~= a.dir_starts());
    let top = a.layers.layers@.len() - 1;
    arrange::lemma_span(a, top);
    assert forall|i: int| 0 <= i < b.files.items@.len() implies #[trigger] b.file_ok(i) by {
        if i < n {
            assert(a.file_ok(i));
            assert(b.files.items@[i] == a.files.items@[i]);
        }
    }
    assert forall|i: int| 0 <= i < b.dirs.items@.len() implies #[trigger] b.dir_ok(i) by {
        assert(a.dir_ok(i));
    }
    assert(b.dir_models() =~= a.dir_models());
    let m = sync::file_model(
        file,
        sync::text_in(a.layers, a.chunked_paths, file.layer(), file.path),
    );
    assert(b.file_models() =~= a.file_models().push(m)) by {
        assert forall|i: int| 0 <= i < n implies #[trigger] b.file_models()[i]
            == a.file_models()[i] by {
            assert(b.files.items@[i] == a.files.items@[i]);
        }
    }
    arrange::lemma_live_same(a.file_models(), b.file_models(), n);
    assert(sync::starts_in_order(b.file_starts(), b.base_count as int, n + 1)) by {
        assert forall|x: int, y: int| 0 <= x <= y < b.file_starts().len() implies #[trigger] b.file_starts()[x]
            <= #[trigger] b.file_starts()[y] <= n + 1 by {
            assert(a.file_starts()[x] <= a.file_starts()[y] <= n);
        }
    }
    assert forall|slot: int|
        a.open_file_index.start <= slot
            < a.open_file_index.indexed_upto implies #[trigger] b.file_slots().path_at(slot)
        == a.file_slots().path_at(slot) by {
        assert(b.files.items@[slot] == a.files.items@[slot]);
    }
    arrange::lemma_consistent(a.open_file_index, a.file_slots(), b.file_slots());
    arrange::lemma_consistent(a.overlay_dir_index, a.dir_slots(), b.dir_slots());
}

/// A row more at the end of the directory table.
pub proof fn lemma_dir_pushed(a: FileSync, b: FileSync, dir: DirItem)
    requires
        a.wf(),
        same_frame(a, b),
        b.dirs.wf(),
        b.open_file_index == a.open_file_index,
        b.overlay_dir_index == a.overlay_dir_index,
        b.files == a.files,
        b.live_count == a.live_count,
        b.dirs.items@ == a.dirs.items@.push(dir),
        b.dirs.items@.len() <= u32::MAX,
        b.live_dirs_count == a.live_dirs_count + 1,
        !dir.deleted(),
        dir.layer() == a.top_layer(),
        sync::named(a.layers, a.chunked_paths, dir.layer(), dir.path),
    ensures
        b.wf(),
        b.dir_models() == a.dir_models().push(
            sync::dir_model(
                dir,
                sync::text_in(a.layers, a.chunked_paths, dir.layer(), dir.path),
            ),
        ),
        b.file_models() == a.file_models(),
{
    let n = a.dirs.items@.len() as int;
    assert(b.file_starts() =~= a.file_starts());
    assert(b.dir_starts() =~= a.dir_starts());
    let top = a.layers.layers@.len() - 1;
    assert(a.dir_starts()[top] <= a.dir_starts()[top] <= n);
    assert forall|i: int| 0 <= i < b.files.items@.len() implies #[trigger] b.file_ok(i) by {
        assert(a.file_ok(i));
    }
    assert forall|i: int| 0 <= i < b.dirs.items@.len() implies #[trigger] b.dir_ok(i) by {
        if i < n {
            assert(a.dir_ok(i));
            assert(b.dirs.items@[i] == a.dirs.items@[i]);
        }
    }
    assert(b.file_models() =~= a.file_models());
    let m = sync::dir_model(
        dir,
        sync::text_in(a.layers, a.chunked_paths, dir.layer(), dir.path),
    );
    assert(b.dir_models() =~= a.dir_models().push(m)) by {
        assert forall|i: int| 0 <= i < n implies #[trigger] b.dir_models()[i]
            == a.dir_models()[i] by {
            assert(b.dirs.items@[i] == a.dirs.items@[i]);
        }
    }
    arrange::lemma_live_dirs_same(a.dir_models(), b.dir_models(), n);
    assert(sync::starts_in_order(b.dir_starts(), b.base_dirs_count as int, n + 1)) by {
        assert forall|x: int, y: int| 0 <= x <= y < b.dir_starts().len() implies #[trigger] b.dir_starts()[x]
            <= #[trigger] b.dir_starts()[y] <= n + 1 by {
            assert(a.dir_starts()[x] <= a.dir_starts()[y] <= n);
        }
    }
    arrange::lemma_consistent(a.open_file_index, a.file_slots(), b.file_slots());
    assert forall|slot: int|
        a.overlay_dir_index.start <= slot
            < a.overlay_dir_index.indexed_upto implies #[trigger] b.dir_slots().path_at(slot)
        == a.dir_slots().path_at(slot) by {
        assert(b.dirs.items@[slot] == a.dirs.items@[slot]);
    }
    arrange::lemma_consistent(a.overlay_dir_index, a.dir_slots(), b.dir_slots());
}

/// A new path at the end keeps the table ordered, as long as the top layer is
/// not said to be sorted.
proof fn lemma_file_pushed_ordered(a: FileSync, b: FileSync, m: FileModel)
    requires
        a.wf(),
        b.wf(),
        a.ordered(),
        same_frame(a, b),
        !a.layers.layers@.last().sorted,
        b.file_models() == a.file_models().push(m),
        b.dir_models() == a.dir_models(),
        forall|i: int| 0 <= i < a.file_models().len() ==> (#[trigger] a.file_models()[i]).path
            != m.path,
        sync::tidy_file(m, a.dir_models()),
    ensures
        b.ordered(),
{
    let fa = a.file_models();
    let fb = b.file_models();
    let n = fa.len() as int;
    lemma_starts_bound(a);
    assert forall|i: int, j: int| 0 <= i < j < fb.len() implies (#[trigger] fb[i]).path != (
    #[trigger] fb[j]).path by {
        if j < n {
            assert(fa[i].path != fa[j].path);
        } else {
            assert(fa[i].path != m.path);
        }
    }
    assert forall|i: int| 0 <= i < fb.len() implies sync::tidy_file(
        #[trigger] fb[i],
        b.dir_models(),
    ) by {
        if i < n {
            assert(sync::tidy_file(fa[i], a.dir_models()));
        }
    }
    lemma_prefix_keys(fa, fb, 0, a.indexable_count as int);
    lemma_prefix_keys(fa, fb, a.indexable_count as int, a.base_count as int);
    assert forall|l: int|
        0 <= l < b.layers.layers@.len() && (
        #[trigger] b.layers.layers@[l]).sorted implies sync::keys_ascend(
        fb,
        b.layers.file_span(l, fb.len() as int).0,
        b.layers.file_span(l, fb.len() as int).1,
    ) by {
        arrange::lemma_span(a, l);
        arrange::lemma_span(b, l);
        assert(a.layers.layers@[l].sorted);
        assert(b.file_starts() =~= a.file_starts());
        lemma_prefix_keys(fa, fb, a.file_starts()[l] as int, a.file_starts()[l + 1] as int);
    }
}

proof fn lemma_prefix_keys(fa: Seq<FileModel>, fb: Seq<FileModel>, s: int, e: int)
    requires
        fa.is_prefix_of(fb),
        0 <= s,
        e <= fa.len(),
        sync::keys_ascend(fa, s, e),
    ensures
        sync::keys_ascend(fb, s, e),
{
    assert forall|i: int, j: int| s <= i < j < e implies crate::types::key_le(
        (#[trigger] fb[i]).key(),
        (#[trigger] fb[j]).key(),
    ) by {
        assert(fb[i] == fa[i]);
        assert(fb[j] == fa[j]);
        assert(crate::types::key_le(fa[i].key(), fa[j].key()));
    }
}

/// A new directory at the end keeps the table ordered.
pub proof fn lemma_dir_pushed_ordered(a: FileSync, b: FileSync, m: DirModel)
    requires
        a.wf(),
        b.wf(),
        a.ordered(),
        same_frame(a, b),
        b.dir_models() == a.dir_models().push(m),
        b.file_models() == a.file_models(),
        forall|i: int| 0 <= i < a.dir_models().len() ==> (#[trigger] a.dir_models()[i]).path
            != m.path,
    ensures
        b.ordered(),
{
    let fa = a.file_models();
    let da = a.dir_models();
    let db = b.dir_models();
    let n = da.len() as int;
    lemma_starts_bound(a);
    assert forall|i: int, j: int| 0 <= i < j < db.len() implies (#[trigger] db[i]).path != (
    #[trigger] db[j]).path by {
        if j < n {
            assert(da[i].path != da[j].path);
        } else {
            assert(da[i].path != m.path);
        }
    }
    assert forall|i: int| 0 <= i < fa.len() implies sync::tidy_file(#[trigger] fa[i], db) by {
        assert(sync::tidy_file(fa[i], da));
    }
    assert forall|i: int, j: int| 0 <= i < j < b.base_dirs_count implies bytes::lex_le(
        (#[trigger] db[i]).path,
        (#[trigger] db[j]).path,
    ) by {
        assert(bytes::lex_le(da[i].path, da[j].path));
    }
    assert forall|l: int|
        0 <= l < b.layers.layers@.len() && (
        #[trigger] b.layers.layers@[l]).sorted implies sync::keys_ascend(
        fa,
        b.layers.file_span(l, fa.len() as int).0,
        b.layers.file_span(l, fa.len() as int).1,
    ) by {
        assert(a.layers.layers@[l].sorted);
    }
}


/// Both tables while entries are added.
pub struct TableModel {
    pub files: Seq<FileModel>,
    pub dirs: Seq<DirModel>,
    /// Files that are there now and were not, or were deleted.
    pub added: nat,
    /// A table was full: nothing further is added.
    pub stopped: bool,
}

pub open spec fn file_at(files: Seq<FileModel>, path: Seq<u8>, i: int) -> bool {
    0 <= i < files.len() && files[i].path == path
}

pub open spec fn dir_at(dirs: Seq<DirModel>, path: Seq<u8>, i: int) -> bool {
    0 <= i < dirs.len() && dirs[i].path == path
}

/// The slot of the file with this path, if there is one.
pub open spec fn find_file(files: Seq<FileModel>, path: Seq<u8>) -> Option<int> {
    if exists|i: int| #[trigger] file_at(files, path, i) {
        Some(choose|i: int| #[trigger] file_at(files, path, i))
    } else {
        None
    }
}

/// The slot of the directory with this path, if there is one.
pub open spec fn find_dir(dirs: Seq<DirModel>, path: Seq<u8>) -> Option<int> {
    if exists|i: int| #[trigger] dir_at(dirs, path, i) {
        Some(choose|i: int| #[trigger] dir_at(dirs, path, i))
    } else {
        None
    }
}

/// A directory that is not in the table yet.
pub open spec fn fresh_dir(path: Seq<u8>, layer: LayerId) -> DirModel {
    DirModel {
        path,
        last_segment_offset: snapshot::last_segment(path) as u16,
        deleted: false,
        layer,
        frecency: 0,
    }
}

/// A file that is not in the table yet.
pub open spec fn fresh_file(r: EntryRecord, layer: LayerId, parent: int) -> FileModel {
    FileModel {
        path: r.path,
        filename_offset: bytes::after_last_slash(r.path) as u16,
        size: r.size,
        modified: r.modified,
        binary: r.binary,
        deleted: false,
        layer,
        parent: parent as u32,
        access_frecency: 0,
        modification_frecency: 0,
        git_recency: 0,
        git_modified: false,
    }
}

/// Adds a file that has no row: its directory first, where that has none.
pub open spec fn add_fresh(
    m: TableModel,
    r: EntryRecord,
    layer: LayerId,
    file_room: nat,
    dir_room: nat,
) -> TableModel {
    let dir = r.path.take(bytes::after_last_slash(r.path));
    add_fresh_in(m, r, layer, file_room, dir_room, find_dir(m.dirs, dir))
}

/// Adds a file whose directory was `found` in the table, or was not.
pub open spec fn add_fresh_in(
    m: TableModel,
    r: EntryRecord,
    layer: LayerId,
    file_room: nat,
    dir_room: nat,
    found: Option<int>,
) -> TableModel {
    let dir = r.path.take(bytes::after_last_slash(r.path));
    if found is None && m.dirs.len() >= dir_room {
        TableModel { stopped: true, ..m }
    } else {
        let dirs = if found is None {
            m.dirs.push(fresh_dir(dir, layer))
        } else {
            m.dirs
        };
        let d = if found is None {
            m.dirs.len() as int
        } else {
            found->0
        };
        if m.files.len() >= file_room {
            TableModel { dirs, stopped: true, ..m }
        } else {
            TableModel {
                files: m.files.push(fresh_file(r, layer, d)),
                dirs: revived(dirs, d),
                added: m.added + 1,
                stopped: false,
            }
        }
    }
}

/// The row at `i` is live; it counts as added where it was deleted.
pub open spec fn bring_back(m: TableModel, i: int) -> TableModel {
    if m.files[i].deleted {
        TableModel {
            files: m.files.update(i, live_file(m.files[i])),
            dirs: revived(m.dirs, m.files[i].parent as int),
            added: m.added + 1,
            stopped: false,
        }
    } else {
        m
    }
}

/// Adds one entry. A path that has a row is not added again; where the row was
/// deleted, it comes back.
pub open spec fn add_entry(
    m: TableModel,
    entry: Option<EntryRecord>,
    layer: LayerId,
    file_room: nat,
    dir_room: nat,
) -> TableModel {
    match entry {
        None => m,
        Some(r) => if m.stopped {
            m
        } else {
            match find_file(m.files, r.path) {
                None => add_fresh(m, r, layer, file_room, dir_room),
                Some(i) => bring_back(m, i),
            }
        },
    }
}

/// Adds the first `n` entries, one after another.
pub open spec fn add_upto(
    m: TableModel,
    entries: Seq<IndexEntry<'_>>,
    n: int,
    layer: LayerId,
    file_room: nat,
    dir_room: nat,
) -> TableModel
    decreases n,
{
    if n <= 0 {
        m
    } else {
        add_entry(
            add_upto(m, entries, n - 1, layer, file_room, dir_room),
            entries[n - 1].record(),
            layer,
            file_room,
            dir_room,
        )
    }
}

proof fn lemma_stopped(
    m: TableModel,
    entries: Seq<IndexEntry<'_>>,
    from: int,
    n: int,
    layer: LayerId,
    file_room: nat,
    dir_room: nat,
)
    requires
        0 <= from <= n,
        add_upto(m, entries, from, layer, file_room, dir_room).stopped,
    ensures
        add_upto(m, entries, n, layer, file_room, dir_room) == add_upto(
            m,
            entries,
            from,
            layer,
            file_room,
            dir_room,
        ),
    decreases n,
{
    if from < n {
        lemma_stopped(m, entries, from, n - 1, layer, file_room, dir_room);
    }
}

/// What became of a directory: it was found, added behind the others, or
/// there was no room for it.
pub open spec fn dir_joined(a: FileSync, b: FileSync, dir: Seq<u8>, r: Option<u32>) -> bool {
    match r {
        Some(d) => if d < a.dir_models().len() {
            &&& a.finds_dir(dir, Some(d as int))
            &&& b.dir_models() == a.dir_models()
        } else {
            &&& d == a.dir_models().len()
            &&& a.finds_dir(dir, None)
            &&& a.dir_models().len() < a.dirs.capacity
            &&& b.dir_models() == a.dir_models().push(fresh_dir(dir, a.top_layer()))
        },
        None => {
            &&& a.finds_dir(dir, None)
            &&& a.dir_models().len() >= a.dirs.capacity
            &&& b.dir_models() == a.dir_models()
        },
    }
}

/// `b` are the tables of `a` with a file for which none was found; its
/// directory was, or was not.
pub open spec fn fresh_in(
    a: FileSync,
    b: FileSync,
    e: EntryRecord,
    r: Outcome,
    dir: Option<int>,
) -> bool {
    &&& a.finds_dir(e.path.take(bytes::after_last_slash(e.path)), dir)
    &&& forall|k: nat|
        add_fresh_in(
            #[trigger] a.tables(k, false),
            e,
            a.top_layer(),
            a.files.capacity as nat,
            a.dirs.capacity as nat,
            dir,
        ) == b.tables(k + r.count(), r == Outcome::Full)
}

/// `b` are the tables of `a` with an entry whose file was `found`, or was not.
pub open spec fn joined_at(
    a: FileSync,
    b: FileSync,
    e: EntryRecord,
    r: Outcome,
    found: Option<int>,
) -> bool {
    &&& a.finds_file(a.file_models().len() as int, e.path, found)
    &&& match found {
        Some(i) => r != Outcome::Full && forall|k: nat|
            bring_back(#[trigger] a.tables(k, false), i) == b.tables(k + r.count(), false),
        None => exists|dir: Option<int>| #[trigger] fresh_in(a, b, e, r, dir),
    }
}

/// What one entry does to tables of any order: it is refused, it brings a row
/// with its path back, or it joins as a new one.
pub open spec fn entry_joined(
    a: FileSync,
    b: FileSync,
    entry: Option<EntryRecord>,
    r: Outcome,
) -> bool {
    &&& b.same_shape(a)
    &&& match entry {
        None => r == Outcome::Skipped && b.same_tables(a),
        Some(e) => exists|found: Option<int>| #[trigger] joined_at(a, b, e, r, found),
    }
}

/// How many entries were added.
pub open spec fn count_added(outcomes: Seq<Outcome>, n: int) -> nat
    decreases n,
{
    if n <= 0 {
        0
    } else {
        count_added(outcomes, n - 1) + outcomes[n - 1].count()
    }
}

/// Entries join one after another, up to the first for which there is no room.
pub open spec fn is_entry_chain(
    states: Seq<FileSync>,
    outcomes: Seq<Outcome>,
    entries: Seq<IndexEntry<'_>>,
) -> bool {
    &&& states.len() == outcomes.len() + 1
    &&& outcomes.len() <= entries.len()
    &&& forall|k: int| 0 <= k < states.len() ==> (#[trigger] states[k]).wf()
    &&& forall|k: int|
        0 <= k < outcomes.len() ==> entry_joined(
            states[k],
            states[k + 1],
            entries[k].record(),
            #[trigger] outcomes[k],
        )
    &&& forall|k: int|
        0 <= k < outcomes.len() - 1 ==> (#[trigger] outcomes[k]) != Outcome::Full
    &&& outcomes.len() < entries.len() ==> outcomes.len() > 0 && outcomes.last() == Outcome::Full
}

/// The entries joined the writable layer one by one, in tables of any order;
/// `added` of them were not there before.
pub open spec fn is_joined(
    before: FileSync,
    after: FileSync,
    entries: Seq<IndexEntry<'_>>,
    added: usize,
) -> bool {
    exists|states: Seq<FileSync>, outcomes: Seq<Outcome>| #[trigger]
        is_entry_chain(states, outcomes, entries) && has_open_top(before, states[0])
            && states.last() == after && added == count_added(outcomes, outcomes.len() as int)
}

impl FileSync {
    /// The tables as [`add_entry`] sees them.
    pub open spec fn tables(&self, added: nat, stopped: bool) -> TableModel {
        TableModel { files: self.file_models(), dirs: self.dir_models(), added, stopped }
    }

    /// The directory with this path, added to the top layer if there is none.
    /// `None` when the table is full.
    pub fn find_or_add_dir(&mut self, dir: &[u8]) -> (r: Option<u32>)
        requires
            old(self).wf(),
            old(self).layers.layers@.last().store is Open,
            dir@.len() < PATH_BUF_SIZE,
            vstd::utf8::valid_utf8(dir@),
            old(self).top_slots() + simd_path::chunk_cost(dir@.len()) <= u32::MAX,
            old(self).dirs.items@.len() < u32::MAX,
        ensures
            final(self).wf(),
            final(self).layers.layers@.len() == old(self).layers.layers@.len(),
            final(self).layers.layers@.last().store is Open,
            final(self).top_slots() <= old(self).top_slots() + simd_path::chunk_cost(dir@.len()),
            arrange::same_base(*old(self), *final(self)),
            top_only(old(self).layers, final(self).layers),
            final(self).file_models() == old(self).file_models(),
            final(self).files.items@.len() == old(self).files.items@.len(),
            old(self).dirs.items@.len() <= final(self).dirs.items@.len() <= old(
                self).dirs.items@.len() + 1,
            match r {
                Some(d) => d < final(self).dirs.items@.len() && final(self).dir_text(d as int)
                    == dir@,
                None => old(self).dirs.items@.len() >= old(self).dirs.capacity,
            },
            dir_joined(*old(self), *final(self), dir@, r),
            old(self).ordered() ==> {
                &&& final(self).ordered()
                &&& match (find_dir(old(self).dir_models(), dir@), r) {
                    (Some(i), Some(d)) => d == i && final(self).dir_models() == old(
                        self).dir_models(),
                    (None, Some(d)) => d == old(self).dir_models().len() && old(
                        self).dir_models().len() < old(self).dirs.capacity
                        && final(self).dir_models() == old(self).dir_models().push(
                        fresh_dir(dir@, old(self).top_layer()),
                    ),
                    (None, None) => final(self).dir_models() == old(self).dir_models(),
                    (Some(_), None) => false,
                }
            },
    {
        let ghost a = *self;
        let found = self.find_dir_index(dir);
        let ghost looked = *self;
        proof {
            sync::lemma_same_tables(a, looked);
            if a.ordered() {
                lemma_found_dir(a, found, dir@);
            }
        }
        if let Some(i) = found {
            assert(a.finds_dir(dir@, Some(i as int)));
            return Some(i as u32);
        }
        assert(a.finds_dir(dir@, None));
        if self.dirs.len() >= self.dirs.capacity() {
            return None;
        }
        proof {
            vstd::utf8::is_char_boundary_start_end_of_seq(dir@);
        }
        let offset: u16 = last_segment_offset(dir);
        proof {
            bytes::lemma_cut_text(dir@, offset as int);
        }
        let handle = self.add_path(dir, offset);
        let ghost grown = *self;
        let mut item = DirItem::new(handle, offset);
        let layer: LayerId = self.layers.top_id();
        item.set_layer(layer);
        let index: usize = self.dirs.len();
        proof {
            lemma_live_dirs_bound(grown.dir_models(), grown.dirs.items@.len() as int);
        }
        let _ = self.dirs.push(item);
        self.live_dirs_count += 1;
        proof {
            lemma_dir_pushed(grown, *self, item);
            let m = fresh_dir(dir@, a.top_layer());
            assert(self.dir_models() == a.dir_models().push(m));
            assert(self.dir_models()[index as int].path == dir@);
            if a.ordered() {
                assert forall|i: int| 0 <= i < grown.dir_models().len() implies (
                #[trigger] grown.dir_models()[i]).path != m.path by {
                    assert(!dir_at(a.dir_models(), dir@, i));
                }
                lemma_dir_pushed_ordered(grown, *self, m);
            }
        }
        Some(index as u32)
    }
}

pub proof fn lemma_found_dir(a: FileSync, found: Option<usize>, path: Seq<u8>)
    requires
        a.wf(),
        a.ordered(),
        match found {
            Some(i) => i < a.dirs.items@.len() && a.dir_text(i as int) == path,
            None => !a.has_dir(path),
        },
    ensures
        match found {
            Some(i) => find_dir(a.dir_models(), path) == Some(i as int),
            None => find_dir(a.dir_models(), path) is None,
        },
{
    let dirs = a.dir_models();
    match found {
        Some(i) => {
            assert(dir_at(dirs, path, i as int));
            let j = choose|j: int| #[trigger] dir_at(dirs, path, j);
            if j < i {
                assert(dirs[j].path != dirs[i as int].path);
            } else if i < j {
                assert(dirs[i as int].path != dirs[j].path);
            }
        },
        None => {
            if exists|i: int| #[trigger] dir_at(dirs, path, i) {
                let i = choose|i: int| #[trigger] dir_at(dirs, path, i);
                assert(a.dir_slots().path_at(i) == path);
            }
        },
    }
}

pub proof fn lemma_found_file(a: FileSync, found: Option<usize>, path: Seq<u8>)
    requires
        a.wf(),
        a.ordered(),
        match found {
            Some(i) => i < a.files.items@.len() && a.file_text(i as int) == path,
            None => !a.has_file(a.files.items@.len() as int, path),
        },
    ensures
        match found {
            Some(i) => find_file(a.file_models(), path) == Some(i as int),
            None => find_file(a.file_models(), path) is None,
        },
{
    let files = a.file_models();
    match found {
        Some(i) => {
            assert(file_at(files, path, i as int));
            let j = choose|j: int| #[trigger] file_at(files, path, j);
            if j < i {
                assert(files[j].path != files[i as int].path);
            } else if i < j {
                assert(files[i as int].path != files[j].path);
            }
        },
        None => {
            if exists|i: int| #[trigger] file_at(files, path, i) {
                let i = choose|i: int| #[trigger] file_at(files, path, i);
                assert(a.file_slots().path_at(i) == path);
            }
        },
    }
}


/// What became of one entry.
#[derive(Clone, Copy, Debug, PartialEq, Eq, Structural)]
pub enum Outcome {
    /// The index has a live file that it did not have.
    Added,
    /// The path was refused, or its file was live already.
    Skipped,
    /// A table had no room.
    Full,
}

impl Outcome {
    pub open spec fn count(self) -> nat {
        if self == Outcome::Added {
            1
        } else {
            0
        }
    }
}

/// What is kept of an entry whose path reads as `path`.
pub open spec fn pending_record(path: Seq<u8>, entry: IndexEntry<'_>) -> EntryRecord {
    EntryRecord {
        path,
        size: entry.size,
        modified: entry.modified,
        binary: entry.binary_by_name(),
    }
}

/// The entries joined the writable layer one by one; `added` of them were not
/// there before.
pub open spec fn is_extended(
    before: FileSync,
    after: FileSync,
    entries: Seq<IndexEntry<'_>>,
    added: usize,
) -> bool {
    exists|open: FileSync| #[trigger]
        has_open_top(before, open) && ({
            let m = add_upto(
                open.tables(0, false),
                entries,
                entries.len() as int,
                open.top_layer(),
                before.files.capacity as nat,
                before.dirs.capacity as nat,
            );
            &&& after.ordered()
            &&& after.layers.layers@.len() == open.layers.layers@.len()
            &&& after.file_models() == m.files
            &&& after.dir_models() == m.dirs
            &&& added == m.added
        })
}

/// Index table entries that a path and its directory take.
pub open spec fn path_cost(path: Seq<u8>) -> nat {
    simd_path::chunk_cost(path.len()) + simd_path::chunk_cost(bytes::after_last_slash(path) as nat)
}

/// Index table entries that an entry takes.
pub open spec fn entry_cost(entry: IndexEntry<'_>) -> nat {
    match entry.record() {
        Some(record) => path_cost(record.path),
        None => 0,
    }
}

pub open spec fn entry_costs(entries: Seq<IndexEntry<'_>>) -> Seq<nat> {
    Seq::new(entries.len(), |i: int| entry_cost(entries[i]))
}

impl FileSync {
    /// What [`FileSync::add_one`] leaves alone.
    pub open spec fn same_shape(&self, other: FileSync) -> bool {
        &&& self.layers.layers@.len() == other.layers.layers@.len()
        &&& top_only(other.layers, self.layers)
        &&& arrange::same_base(other, *self)
        &&& other.files.items@.len() <= self.files.items@.len() <= other.files.items@.len() + 1
        &&& other.dirs.items@.len() <= self.dirs.items@.len() <= other.dirs.items@.len() + 1
    }

    /// Appends a row for a file of the top layer; `false` when there is no
    /// room.
    pub fn push_file(&mut self, file: FileItem) -> (r: bool)
        requires
            old(self).wf(),
            old(self).files.items@.len() < u32::MAX,
            !file.deleted(),
            file.layer() == old(self).top_layer(),
            file.parent_dir_index < old(self).dirs.items@.len(),
            sync::named(old(self).layers, old(self).chunked_paths, file.layer(), file.path),
        ensures
            final(self).wf(),
            same_frame(*old(self), *final(self)),
            r == (old(self).files.items@.len() < old(self).files.capacity),
            !r ==> *final(self) == *old(self),
            r ==> ({
                let m = sync::file_model(
                    file,
                    sync::text_in(
                        old(self).layers,
                        old(self).chunked_paths,
                        file.layer(),
                        file.path,
                    ),
                );
                &&& final(self).files.items@ == old(self).files.items@.push(file)
                &&& final(self).file_models() == old(self).file_models().push(m)
                &&& final(self).dirs == old(self).dirs
                &&& final(self).dir_models() == old(self).dir_models()
                &&& old(self).ordered() && !old(self).layers.layers@.last().sorted
                    && sync::tidy_file(m, old(self).dir_models()) && (forall|i: int|
                    0 <= i < old(self).file_models().len() ==> (
                    #[trigger] old(self).file_models()[i]).path != m.path)
                    ==> final(self).ordered()
            }),
    {
        let ghost a = *self;
        let ghost m = sync::file_model(
            file,
            sync::text_in(a.layers, a.chunked_paths, file.layer(), file.path),
        );
        proof {
            lemma_live_bound(a.file_models(), a.files.items@.len() as int);
        }
        if !self.files.push(file) {
            return false;
        }
        self.live_count += 1;
        proof {
            lemma_file_pushed(a, *self, file);
            if a.ordered() && !a.layers.layers@.last().sorted && sync::tidy_file(
                m,
                a.dir_models(),
            ) && (forall|i: int|
                0 <= i < a.file_models().len() ==> (#[trigger] a.file_models()[i]).path
                    != m.path) {
                lemma_file_pushed_ordered(a, *self, m);
            }
        }
        true
    }

    /// Adds a file for a path that has no row.
    fn add_missing(&mut self, path: &[u8], entry: &IndexEntry<'_>) -> (r: Outcome)
        requires
            old(self).wf(),
            old(self).layers.layers@.last().store is Open,
            snapshot::indexable_path(path@),
            old(self).top_slots() + path_cost(path@) <= u32::MAX,
            old(self).files.items@.len() < u32::MAX,
            old(self).dirs.items@.len() < u32::MAX,
            old(self).ordered() ==> find_file(old(self).file_models(), path@) is None,
        ensures
            final(self).wf(),
            final(self).layers.layers@.last().store is Open,
            final(self).top_slots() <= old(self).top_slots() + path_cost(path@),
            final(self).same_shape(*old(self)),
            exists|dir: Option<int>| #[trigger]
                fresh_in(*old(self), *final(self), pending_record(path@, *entry), r, dir),
            old(self).ordered() ==> {
                &&& final(self).ordered()
                &&& forall|k: nat|
                    add_fresh(
                        #[trigger] old(self).tables(k, false),
                        pending_record(path@, *entry),
                        old(self).top_layer(),
                        old(self).files.capacity as nat,
                        old(self).dirs.capacity as nat,
                    ) == final(self).tables(k + r.count(), r == Outcome::Full)
            },
    {
        let ghost a = *self;
        let offset: usize = filename_offset(path);
        proof {
            bytes::lemma_after_last_slash(path@);
            bytes::lemma_cut_text(path@, offset as int);
        }
        let dir = vstd::slice::slice_subrange(path, 0, offset);
        assert(dir@ =~= path@.take(offset as int));
        let dir_idx: u32 = match self.find_or_add_dir(dir) {
            Some(d) => d,
            None => {
                assert(fresh_in(
                    a,
                    *self,
                    pending_record(path@, *entry),
                    Outcome::Full,
                    None,
                ));
                return Outcome::Full;
            },
        };
        let ghost with_dir = *self;
        let ghost known = if dir_idx < a.dir_models().len() {
            Some(dir_idx as int)
        } else {
            None
        };
        assert(a.finds_dir(dir@, known));
        let mut file = FileItem::new_raw(
            offset as u16,
            entry.size,
            entry.modified,
            false,
            entry.is_binary(),
        );
        file.set_path(self.add_path(path, offset as u16));
        let layer: LayerId = self.layers.top_id();
        file.set_layer(layer);
        file.parent_dir_index = dir_idx;
        let ghost grown = *self;
        let ghost record = pending_record(path@, *entry);
        let ghost m = fresh_file(record, a.top_layer(), dir_idx as int);
        proof {
            assert(sync::file_model(file, path@) == m);
            if a.ordered() {
                assert forall|i: int| 0 <= i < grown.file_models().len() implies (
                #[trigger] grown.file_models()[i]).path != m.path by {
                    assert(!file_at(a.file_models(), path@, i));
                }
                assert(grown.dir_models()[dir_idx as int].path == dir@);
                assert(sync::tidy_file(m, grown.dir_models()));
            }
        }
        if !self.push_file(file) {
            assert(fresh_in(a, *self, record, Outcome::Full, known));
            return Outcome::Full;
        }
        self.revive_dir(dir_idx);
        assert(fresh_in(a, *self, record, Outcome::Added, known));
        Outcome::Added
    }

    /// Adds one entry to the writable layer.
    fn add_one(&mut self, entry: &IndexEntry<'_>) -> (r: Outcome)
        requires
            old(self).wf(),
            old(self).layers.layers@.last().store is Open,
            old(self).top_slots() + entry_cost(*entry) <= u32::MAX,
            old(self).files.items@.len() < u32::MAX,
            old(self).dirs.items@.len() < u32::MAX,
        ensures
            final(self).wf(),
            final(self).layers.layers@.last().store is Open,
            final(self).top_slots() <= old(self).top_slots() + entry_cost(*entry),
            final(self).same_shape(*old(self)),
            entry_joined(*old(self), *final(self), entry.record(), r),
            old(self).ordered() ==> {
                &&& final(self).ordered()
                &&& forall|k: nat|
                    add_entry(
                        #[trigger] old(self).tables(k, false),
                        entry.record(),
                        old(self).top_layer(),
                        old(self).files.capacity as nat,
                        old(self).dirs.capacity as nat,
                    ) == final(self).tables(k + r.count(), r == Outcome::Full)
            },
    {
        let ghost a = *self;
        let path = match normalize_relative_path(entry.relative_path) {
            Some(path) => path,
            None => {
                return Outcome::Skipped;
            },
        };
        proof {
            assert(a.file_starts()[0] <= a.file_starts()[0] <= a.files.items@.len());
        }
        let found = self.lookup_relative_path(path.as_slice(), self.files.len());
        let ghost looked = *self;
        proof {
            sync::lemma_same_tables(a, looked);
            if a.ordered() {
                lemma_found_file(a, found, path@);
            }
        }
        let ghost e = pending_record(path@, *entry);
        if let Some(i) = found {
            if self.revive_file(i) {
                assert(joined_at(a, *self, e, Outcome::Added, Some(i as int)));
                return Outcome::Added;
            } else {
                assert(joined_at(a, *self, e, Outcome::Skipped, Some(i as int)));
                return Outcome::Skipped;
            }
        }
        proof {
            assert(entry.record() == Some(pending_record(path@, *entry)));
            assert forall|k: nat| #[trigger] a.tables(k, false) == looked.tables(k, false) by {}
        }
        let r = self.add_missing(path.as_slice(), entry);
        proof {
            let dir = choose|dir: Option<int>| #[trigger] fresh_in(looked, *self, e, r, dir);
            assert(looked.dir_slots() == a.dir_slots());
            assert(a.finds_dir(e.path.take(bytes::after_last_slash(e.path)), dir));
            assert(fresh_in(a, *self, e, r, dir));
            assert(joined_at(a, *self, e, r, None));
        }
        r
    }

    /// Adds entries to the writable layer, opened first where the top one is
    /// sealed. Paths already in the index are skipped; deleted ones come back.
    /// Returns the number added.
    pub fn add_entries(&mut self, entries: &[IndexEntry<'_>]) -> (added: usize)
        requires
            old(self).wf(),
            old(self).can_merge(),
            old(self).top_slots() + sorting::total(entry_costs(entries@)) <= u32::MAX,
            old(self).files.items@.len() + entries@.len() <= u32::MAX,
            old(self).dirs.items@.len() + entries@.len() <= u32::MAX,
        ensures
            final(self).wf(),
            is_joined(*old(self), *final(self), entries@, added),
            old(self).ordered() ==> is_extended(*old(self), *final(self), entries@, added),
    {
        let ghost before = *self;
        let _ = self.ensure_open_top();
        let ghost open = *self;
        let ghost costs = entry_costs(entries@);
        let ghost layer = open.top_layer();
        let ghost fr = open.files.capacity as nat;
        let ghost dr = open.dirs.capacity as nat;
        let ghost start = open.tables(0, false);
        let mut added: usize = 0;
        let mut full: bool = false;
        let mut i: usize = 0;
        let ghost mut states: Seq<FileSync> = seq![open];
        let ghost mut outcomes: Seq<Outcome> = Seq::empty();
        proof {
            assert(has_open_top(before, open));
            assert(costs.take(0) =~= Seq::empty());
            assert(open.files.items@.len() == open.file_models().len());
            assert(open.dirs.items@.len() == open.dir_models().len());
        }
        while i < entries.len() && !full
            invariant
                self.wf(),
                i <= entries@.len(),
                added <= i,
                start == open.tables(0, false),
                layer == open.top_layer(),
                fr == open.files.capacity,
                dr == open.dirs.capacity,
                self.files.capacity == open.files.capacity,
                self.dirs.capacity == open.dirs.capacity,
                self.layers.layers@.len() == open.layers.layers@.len(),
                self.layers.layers@.last().store is Open,
                costs == entry_costs(entries@),
                self.top_slots() + sorting::total(costs) <= u32::MAX + sorting::total(
                    costs.take(i as int),
                ),
                self.files.items@.len() + (entries@.len() - i) <= u32::MAX,
                self.dirs.items@.len() + (entries@.len() - i) <= u32::MAX,
                states.len() == i + 1,
                outcomes.len() == i,
                states[0] == open,
                states.last() == *self,
                forall|k: int| 0 <= k < states.len() ==> (#[trigger] states[k]).wf(),
                added == count_added(outcomes, i as int),
                forall|k: int|
                    0 <= k < i ==> entry_joined(
                        states[k],
                        states[k + 1],
                        entries@[k].record(),
                        #[trigger] outcomes[k],
                    ),
                forall|k: int| 0 <= k < i - 1 ==> (#[trigger] outcomes[k]) != Outcome::Full,
                i > 0 ==> full == (outcomes.last() == Outcome::Full),
                i == 0 ==> !full,
                open.ordered() ==> self.ordered() && add_upto(
                    start,
                    entries@,
                    i as int,
                    layer,
                    fr,
                    dr,
                ) == self.tables(added as nat, full),
            decreases entries@.len() - i,
        {
            let ghost held = *self;
            let ghost count = added as nat;
            proof {
                sorting::lemma_total_step(costs, i as int);
                sorting::lemma_total_prefix(costs, i + 1);
            }
            let outcome = self.add_one(&entries[i]);
            assert(held.ordered() ==> add_entry(
                held.tables(count, false),
                entries@[i as int].record(),
                layer,
                fr,
                dr,
            ) == self.tables(count + outcome.count(), outcome == Outcome::Full));
            proof {
                let old_states = states;
                let old_outcomes = outcomes;
                states = states.push(*self);
                outcomes = outcomes.push(outcome);
                lemma_count_pushed(old_outcomes, outcome, i as int);
                assert forall|k: int| 0 <= k < outcomes.len() implies entry_joined(
                    states[k],
                    states[k + 1],
                    entries@[k].record(),
                    #[trigger] outcomes[k],
                ) by {
                    if k < i {
                        assert(outcomes[k] == old_outcomes[k]);
                        assert(states[k] == old_states[k] && states[k + 1] == old_states[k + 1]);
                    }
                }
            }
            match outcome {
                Outcome::Added => {
                    added += 1;
                },
                Outcome::Skipped => {},
                Outcome::Full => {
                    full = true;
                },
            }
            i += 1;
        }
        proof {
            assert(is_entry_chain(states, outcomes, entries@));
            if before.ordered() && full {
                lemma_stopped(start, entries@, i as int, entries@.len() as int, layer, fr, dr);
            }
        }
        added
    }
}

pub proof fn lemma_count_pushed(outcomes: Seq<Outcome>, outcome: Outcome, n: int)
    requires
        n <= outcomes.len(),
    ensures
        count_added(outcomes.push(outcome), n) == count_added(outcomes, n),
    decreases n,
{
    if n > 0 {
        lemma_count_pushed(outcomes, outcome, n - 1);
    }
}

/// `open` is `before` with a writable layer on top: `before` itself, or with a
/// new layer where its top one was sealed.
pub open spec fn has_open_top(before: FileSync, open: FileSync) -> bool {
    &&& open.wf()
    &&& open.layers.layers@.last().store is Open
    &&& if before.layers.layers@.last().store is Open {
        open == before
    } else {
        &&& layer_ops::carried(before, open, before.is_full(), before.fixed_slots())
        &&& layer_ops::opened_as(open, None)
    }
}

} // verus!
