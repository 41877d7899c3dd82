//! The stack of overlays above the base scan.

use crate::simd_path;
use crate::simd_path::{ArenaPtr, ChunkedPathStore, ChunkedPathStoreBuilder, ChunkedString};
use crate::types::FileItem;
use smallvec::SmallVec;
use vstd::prelude::*;

verus! {

/// Index of an arena layer. `0` is the base scan, `1..` are overlays.
pub type LayerId = u8;

/// Base scan plus four append-only overlays.
pub const MAX_INDEX_LAYERS: usize = 5;

/// How many overlays can exist on top of the base scan.
pub const MAX_OVERLAY_LAYERS: usize = 4;

/// Overlay that collects every file the watcher added since the picker started.
pub const SESSION_LAYER: LayerId = 1;

/// Label given to [`SESSION_LAYER`] when the stack is created.
pub const SESSION_LAYER_LABEL: &'static str = "session";

/// Files that a table can take before it has to grow.
pub const MAX_OVERFLOW_FILES: usize = 1024;

/// Arena per layer, resolved once per search and copied into workers. A layer
/// id occupies three flag bits, so the table has eight slots.
#[derive(Clone, Copy)]
pub struct LayerArenas<'a> {
    pub ptrs: [ArenaPtr<'a>; 8],
}

impl<'a> LayerArenas<'a> {
    /// Every layer resolves to the same arena. Used when a slice is known to
    /// hold items of a single layer.
    pub fn uniform(arena: ArenaPtr<'a>) -> (r: Self)
        ensures
            forall|i: int| 0 <= i < 8 ==> r.ptrs@[i] == arena,
    {
        LayerArenas { ptrs: [arena, arena, arena, arena, arena, arena, arena, arena] }
    }

    pub fn base(&self) -> (r: ArenaPtr<'a>)
        ensures
            r == self.ptrs@[0],
    {
        self.ptrs[0]
    }

    /// The arena of `layer`; ids repeat every eight, as their flag bits do.
    pub fn get(&self, layer: LayerId) -> (r: ArenaPtr<'a>)
        ensures
            r == self.ptrs@[(layer % 8) as int],
    {
        assert(layer & 7 == layer % 8 && layer & 7 < 8) by (bit_vector);
        self.ptrs[(layer & 7) as usize]
    }
}

/// `(files_start, files_end, layer_id)` for every overlay, oldest first. Four
/// of them fit without an allocation. [`LayerStack::lookup_ranges`] gives the
/// arena of each.
#[verifier::external_body]
pub struct LayerRanges {
    inner: SmallVec<[(usize, usize, LayerId); 4]>,
}

/// The ranges held, in order.
pub uninterp spec fn layer_ranges(ranges: LayerRanges) -> Seq<(usize, usize, LayerId)>;

impl LayerRanges {
    /// No ranges: `SmallVec::new`.
    #[verifier::external_body]
    fn new() -> (r: Self)
        ensures
            layer_ranges(r) == Seq::<(usize, usize, LayerId)>::empty(),
    {
        LayerRanges { inner: SmallVec::new() }
    }

    /// Appends a range: `SmallVec::push`.
    #[verifier::external_body]
    fn push(&mut self, range: (usize, usize, LayerId))
        ensures
            layer_ranges(*final(self)) == layer_ranges(*old(self)).push(range),
    {
        self.inner.push(range)
    }

    /// The ranges as a slice: `SmallVec::as_slice`.
    #[verifier::external_body]
    fn slice(&self) -> (r: &[(usize, usize, LayerId)])
        ensures
            r@ == layer_ranges(*self),
    {
        self.inner.as_slice()
    }

    /// The ranges, oldest first.
    pub fn as_slice(&self) -> (r: &[(usize, usize, LayerId)])
        ensures
            r@ == layer_ranges(*self),
    {
        self.slice()
    }
}

/// Public snapshot of one layer, returned by `FilePicker::layers`.
#[derive(Clone, Debug)]
pub struct LayerInfo {
    pub id: LayerId,
    pub label: Option<String>,
    /// Index slots owned by the layer, tombstones included.
    pub file_count: usize,
    pub live_file_count: usize,
    pub dir_count: usize,
    /// Bytes held by the layer's path arena (excludes the dedup table).
    pub arena_bytes: usize,
    /// `true` for the single writable layer at the top of the stack.
    pub is_open: bool,
}

pub enum LayerStore {
    /// Writable top layer. `None` until the first path lands in it, so an
    /// untouched layer costs nothing.
    Open(Option<ChunkedPathStoreBuilder>),
    /// Frozen: the chunk dedup table is dropped, only the arena survives.
    Sealed(ChunkedPathStore),
}

impl LayerStore {
    pub open spec fn wf(&self) -> bool {
        match self {
            LayerStore::Open(Some(builder)) => builder.wf(),
            LayerStore::Open(None) => true,
            LayerStore::Sealed(store) => store.wf(),
        }
    }

    /// The arena, if the layer has one.
    pub open spec fn arena(&self) -> Option<ChunkedPathStore> {
        match self {
            LayerStore::Open(Some(builder)) => Some(builder.store),
            LayerStore::Open(None) => None,
            LayerStore::Sealed(store) => Some(*store),
        }
    }

    pub open spec fn byte_size(&self) -> nat {
        match self.arena() {
            Some(store) => store.byte_size(),
            None => 0,
        }
    }

    pub fn arena_ptr(&self) -> (r: ArenaPtr<'_>)
        ensures
            match self.arena() {
                Some(store) => r.store == Some(&store),
                None => r.store is None,
            },
    {
        match self {
            LayerStore::Open(Some(builder)) => ArenaPtr::new(&builder.store),
            LayerStore::Open(None) => ArenaPtr::null(),
            LayerStore::Sealed(store) => ArenaPtr::new(store),
        }
    }

    pub fn heap_bytes(&self) -> (r: usize)
        requires
            self.byte_size() <= usize::MAX,
        ensures
            r == self.byte_size(),
    {
        match self {
            LayerStore::Open(Some(builder)) => builder.heap_bytes(),
            LayerStore::Open(None) => 0,
            LayerStore::Sealed(store) => store.heap_bytes(),
        }
    }

    pub fn is_open(&self) -> (r: bool)
        ensures
            r == (self is Open),
    {
        match self {
            LayerStore::Open(_) => true,
            LayerStore::Sealed(_) => false,
        }
    }
}

pub struct IndexLayer {
    pub label: Option<String>,
    /// First `files` / `dirs` index owned by this layer.
    pub files_start: usize,
    pub dirs_start: usize,
    pub store: LayerStore,
    /// Files sorted by `(dir, name)`, so lookups can binary search.
    pub sorted: bool,
}

/// Overlays above the immutable base scan; each owns a contiguous range of
/// `files`/`dirs` plus its own path arena, costing nothing per file.
pub struct LayerStack {
    pub layers: Vec<IndexLayer>,
}

/// The part of a table of `len` rows that starts at `start` and ends where the
/// next layer starts, kept inside the table.
pub open spec fn clipped_range(start: int, next: int, len: int) -> (int, int) {
    let end = if next < len {
        next
    } else {
        len
    };
    (
        if start < end {
            start
        } else {
            end
        },
        end,
    )
}

/// How many of the files from `start` up to `end` are live.
pub open spec fn live_count(files: Seq<FileItem>, start: int, end: int) -> nat
    decreases end - start,
{
    if start >= end {
        0
    } else {
        live_count(files, start, end - 1) + if files[end - 1].deleted() {
            0nat
        } else {
            1
        }
    }
}

fn same_label(label: &Option<String>) -> (r: Option<String>)
    ensures
        label_text(r) == label_text(*label),
{
    match label {
        Some(text) => Some(text.clone()),
        None => None,
    }
}

pub open spec fn label_text(label: Option<String>) -> Option<Seq<char>> {
    match label {
        Some(text) => Some(text@),
        None => None,
    }
}

/// What [`LayerStack::info`] says of one layer.
pub open spec fn describes(
    stack: LayerStack,
    files: Seq<FileItem>,
    dirs_len: int,
    i: int,
    info: LayerInfo,
) -> bool {
    let layer = stack.layers@[i];
    let (start, end) = stack.file_span(i, files.len() as int);
    let (dir_start, dir_end) = stack.dir_span(i, dirs_len);
    &&& info.id == i + 1
    &&& label_text(info.label) == label_text(layer.label)
    &&& info.file_count == end - start
    &&& info.live_file_count == live_count(files, start, end)
    &&& info.dir_count == dir_end - dir_start
    &&& info.arena_bytes == layer.store.byte_size()
    &&& info.is_open == (layer.store is Open)
}

/// `copy` holds what the arena of a layer does; nothing, where it has none.
pub open spec fn is_store_copy(store: LayerStore, copy: ChunkedPathStore) -> bool {
    &&& copy.wf()
    &&& match store.arena() {
        Some(arena) => copy.same_as(arena),
        None => copy.chunks@.len() == 0 && copy.indices@.len() == 0,
    }
}

/// Bytes of the first `n` overlay arenas.
pub open spec fn arena_bytes(layers: Seq<IndexLayer>, n: int) -> nat
    decreases n,
{
    if n <= 0 {
        0
    } else {
        arena_bytes(layers, n - 1) + layers[n - 1].store.byte_size()
    }
}

impl LayerStack {
    /// At least one layer, no more than the arena table has slots for, and
    /// every arena sound.
    pub open spec fn wf(&self) -> bool {
        &&& 1 <= self.layers@.len() < 8
        &&& forall|i: int| 0 <= i < self.layers@.len() ==> (#[trigger] self.layers@[i]).store.wf()
    }

    /// The bytes of each arena can be counted.
    pub open spec fn bytes_fit(&self) -> bool {
        forall|i: int|
            0 <= i < self.layers@.len() ==> (#[trigger] self.layers@[i]).store.byte_size()
                <= usize::MAX
    }

    /// Layer `i` of the stack, as the id that rows carry.
    pub open spec fn has_id(&self, id: LayerId) -> bool {
        1 <= id <= self.layers@.len()
    }

    /// The files that layer `i` owns, in a table of `len` files.
    pub open spec fn file_span(&self, i: int, len: int) -> (int, int) {
        clipped_range(
            self.layers@[i].files_start as int,
            if i + 1 < self.layers@.len() {
                self.layers@[i + 1].files_start as int
            } else {
                len
            },
            len,
        )
    }

    /// The dirs that layer `i` owns, in a table of `len` dirs.
    pub open spec fn dir_span(&self, i: int, len: int) -> (int, int) {
        clipped_range(
            self.layers@[i].dirs_start as int,
            if i + 1 < self.layers@.len() {
                self.layers@[i + 1].dirs_start as int
            } else {
                len
            },
            len,
        )
    }

    pub fn new(files_start: usize, dirs_start: usize) -> (r: Self)
        ensures
            r.wf(),
            r.layers@.len() == 1,
            label_text(r.layers@[0].label) == Some(SESSION_LAYER_LABEL@),
            r.layers@[0].files_start == files_start,
            r.layers@[0].dirs_start == dirs_start,
            r.layers@[0].store == LayerStore::Open(None),
            !r.layers@[0].sorted,
    {
        let mut layers: Vec<IndexLayer> = Vec::with_capacity(MAX_OVERLAY_LAYERS);
        layers.push(
            IndexLayer {
                label: Some(SESSION_LAYER_LABEL.to_owned()),
                files_start,
                dirs_start,
                store: LayerStore::Open(None),
                sorted: false,
            },
        );
        LayerStack { layers }
    }

    pub fn top_id(&self) -> (r: LayerId)
        requires
            self.wf(),
        ensures
            r == self.layers@.len(),
    {
        self.layers.len() as LayerId
    }

    /// The arena of every layer, `base` in slot 0.
    pub fn arenas<'a>(&'a self, base: ArenaPtr<'a>) -> (r: LayerArenas<'a>)
        requires
            self.wf(),
        ensures
            r.ptrs@[0] == base,
            forall|i: int|
                0 <= i < self.layers@.len() ==> match self.layers@[i].store.arena() {
                    Some(store) => (#[trigger] r.ptrs@[i + 1]).store == Some(&store),
                    None => r.ptrs@[i + 1].store is None,
                },
            forall|i: int|
                self.layers@.len() < i < 8 ==> (#[trigger] r.ptrs@[i]).store is None,
    {
        let mut ptrs: [ArenaPtr<'a>; 8] = LayerArenas::uniform(ArenaPtr::null()).ptrs;
        ptrs[0] = base;
        let mut i: usize = 0;
        while i < self.layers.len()
            invariant
                self.wf(),
                i <= self.layers@.len(),
                ptrs@[0] == base,
                forall|k: int|
                    0 <= k < i ==> match self.layers@[k].store.arena() {
                        Some(store) => (#[trigger] ptrs@[k + 1]).store == Some(&store),
                        None => ptrs@[k + 1].store is None,
                    },
                forall|k: int| i < k < 8 ==> (#[trigger] ptrs@[k]).store is None,
            decreases self.layers@.len() - i,
        {
            ptrs[i + 1] = self.layers[i].store.arena_ptr();
            i += 1;
        }
        LayerArenas { ptrs }
    }

    /// Arena of the topmost layer.
    pub fn top_arena(&self) -> (r: ArenaPtr<'_>)
        requires
            self.wf(),
        ensures
            match self.layers@.last().store.arena() {
                Some(store) => r.store == Some(&store),
                None => r.store is None,
            },
    {
        self.layers[self.layers.len() - 1].store.arena_ptr()
    }

    pub fn top_is_open(&self) -> (r: bool)
        requires
            self.wf(),
        ensures
            r == (self.layers@.last().store is Open),
    {
        self.layers[self.layers.len() - 1].store.is_open()
    }

    /// Path builder for the writable top layer, allocated on first use.
    /// Callers open a new layer first when the top is sealed.
    pub fn top_builder(&mut self) -> (r: &mut ChunkedPathStoreBuilder)
        requires
            old(self).wf(),
            old(self).layers@.last().store is Open,
        ensures
            r.wf(),
            match old(self).layers@.last().store.arena() {
                Some(store) => *r == old(self).layers@.last().store->Open_0->0,
                None => r.deduplicated() && r.store.chunks@.len() == 0 && r.store.indices@.len()
                    == 0,
            },
            final(self).layers@ == old(self).layers@.update(
                old(self).layers@.len() - 1,
                (IndexLayer {
                    store: LayerStore::Open(Some(*final(r))),
                    sorted: false,
                    ..old(self).layers@.last()
                }),
            ),
    {
        let at: usize = self.layers.len() - 1;
        let top = &mut self.layers[at];
        top.sorted = false;
        match &mut top.store {
            LayerStore::Open(slot) => {
                if slot.is_none() {
                    *slot = Some(ChunkedPathStoreBuilder::new(MAX_OVERFLOW_FILES));
                }
                match slot {
                    Some(builder) => builder,
                    None => vstd::pervasive::unreached(),
                }
            },
            LayerStore::Sealed(_) => vstd::pervasive::unreached(),
        }
    }

    fn index_of(&self, id: LayerId) -> (r: Option<usize>)
        ensures
            match r {
                Some(i) => self.has_id(id) && i == id - 1,
                None => !self.has_id(id),
            },
    {
        if 1 <= id && id as usize <= self.layers.len() {
            Some(id as usize - 1)
        } else {
            None
        }
    }

    fn range_at(&self, start: usize, next: Option<usize>, len: usize) -> (r: (usize, usize))
        ensures
            (r.0 as int, r.1 as int) == clipped_range(
                start as int,
                match next {
                    Some(next) => next as int,
                    None => len as int,
                },
                len as int,
            ),
    {
        let next: usize = match next {
            Some(next) => next,
            None => len,
        };
        let end: usize = if next < len {
            next
        } else {
            len
        };
        (
            if start < end {
                start
            } else {
                end
            },
            end,
        )
    }

    fn files_at(&self, i: usize, files_len: usize) -> (r: (usize, usize))
        requires
            i < self.layers@.len(),
        ensures
            (r.0 as int, r.1 as int) == self.file_span(i as int, files_len as int),
            r.0 <= r.1 <= files_len,
    {
        let next: Option<usize> = if i < self.layers.len() - 1 {
            Some(self.layers[i + 1].files_start)
        } else {
            None
        };
        self.range_at(self.layers[i].files_start, next, files_len)
    }

    fn dirs_at(&self, i: usize, dirs_len: usize) -> (r: (usize, usize))
        requires
            i < self.layers@.len(),
        ensures
            (r.0 as int, r.1 as int) == self.dir_span(i as int, dirs_len as int),
            r.0 <= r.1 <= dirs_len,
    {
        let next: Option<usize> = if i < self.layers.len() - 1 {
            Some(self.layers[i + 1].dirs_start)
        } else {
            None
        };
        self.range_at(self.layers[i].dirs_start, next, dirs_len)
    }

    /// `(start, end, arena, sorted)` per overlay for point lookups.
    pub fn lookup_ranges(&self, files_len: usize) -> (r: Vec<(usize, usize, ArenaPtr<'_>, bool)>)
        requires
            self.wf(),
        ensures
            r@.len() == self.layers@.len(),
            forall|i: int|
                0 <= i < r@.len() ==> {
                    let (start, end, arena, sorted) = #[trigger] r@[i];
                    &&& (start as int, end as int) == self.file_span(i, files_len as int)
                    &&& sorted == self.layers@[i].sorted
                    &&& match self.layers@[i].store.arena() {
                        Some(store) => arena.store == Some(&store),
                        None => arena.store is None,
                    }
                },
    {
        let ranges = self.file_ranges(files_len);
        let mut out: Vec<(usize, usize, ArenaPtr<'_>, bool)> = Vec::new();
        let mut i: usize = 0;
        while i < self.layers.len()
            invariant
                i <= self.layers@.len(),
                layer_ranges(ranges).len() == self.layers@.len(),
                forall|k: int|
                    0 <= k < layer_ranges(ranges).len() ==> {
                        let (start, end, id) = #[trigger] layer_ranges(ranges)[k];
                        (start as int, end as int) == self.file_span(k, files_len as int)
                    },
                out@.len() == i,
                forall|k: int|
                    0 <= k < i ==> {
                        let (start, end, arena, sorted) = #[trigger] out@[k];
                        &&& (start as int, end as int) == self.file_span(k, files_len as int)
                        &&& sorted == self.layers@[k].sorted
                        &&& match self.layers@[k].store.arena() {
                            Some(store) => arena.store == Some(&store),
                            None => arena.store is None,
                        }
                    },
            decreases self.layers@.len() - i,
        {
            let (start, end, _) = ranges.as_slice()[i];
            out.push((start, end, self.layers[i].store.arena_ptr(), self.layers[i].sorted));
            i += 1;
        }
        out
    }

    /// `files_len` closes the range of the open top layer.
    pub fn file_ranges(&self, files_len: usize) -> (r: LayerRanges)
        requires
            self.wf(),
        ensures
            layer_ranges(r).len() == self.layers@.len(),
            forall|i: int|
                0 <= i < layer_ranges(r).len() ==> {
                    let (start, end, id) = #[trigger] layer_ranges(r)[i];
                    (start as int, end as int) == self.file_span(i, files_len as int) && id == i
                        + 1
                },
    {
        let mut ranges = LayerRanges::new();
        let mut i: usize = 0;
        while i < self.layers.len()
            invariant
                self.wf(),
                i <= self.layers@.len(),
                layer_ranges(ranges).len() == i,
                forall|k: int|
                    0 <= k < i ==> {
                        let (start, end, id) = #[trigger] layer_ranges(ranges)[k];
                        (start as int, end as int) == self.file_span(k, files_len as int) && id
                            == k + 1
                    },
            decreases self.layers@.len() - i,
        {
            let (start, end) = self.files_at(i, files_len);
            ranges.push((start, end, (i + 1) as LayerId));
            i += 1;
        }
        ranges
    }

    pub fn file_range(&self, id: LayerId, files_len: usize) -> (r: Option<(usize, usize)>)
        ensures
            match r {
                Some((start, end)) => self.has_id(id) && (start as int, end as int)
                    == self.file_span(id - 1, files_len as int),
                None => !self.has_id(id),
            },
    {
        match self.index_of(id) {
            Some(i) => Some(self.files_at(i, files_len)),
            None => None,
        }
    }

    pub fn dir_range(&self, id: LayerId, dirs_len: usize) -> (r: Option<(usize, usize)>)
        ensures
            match r {
                Some((start, end)) => self.has_id(id) && (start as int, end as int)
                    == self.dir_span(id - 1, dirs_len as int),
                None => !self.has_id(id),
            },
    {
        match self.index_of(id) {
            Some(i) => Some(self.dirs_at(i, dirs_len)),
            None => None,
        }
    }

    /// Freezes the top layer; its arena stays, the dedup table goes.
    pub fn seal_top(&mut self)
        requires
            old(self).wf(),
        ensures
            final(self).wf(),
            final(self).layers@.len() == old(self).layers@.len(),
            final(self).layers@.drop_last() == old(self).layers@.drop_last(),
            final(self).layers@.last() == (IndexLayer {
                store: final(self).layers@.last().store,
                ..old(self).layers@.last()
            }),
            final(self).layers@.last().store is Sealed,
            match old(self).layers@.last().store.arena() {
                Some(store) => final(self).layers@.last().store == LayerStore::Sealed(store),
                None => final(self).layers@.last().store->Sealed_0.chunks@.len() == 0
                    && final(self).layers@.last().store->Sealed_0.indices@.len() == 0,
            },
    {
        let top = self.layers.pop().unwrap();
        let store = match top.store {
            LayerStore::Open(Some(builder)) => builder.finish(),
            LayerStore::Open(None) => ChunkedPathStore::empty(),
            LayerStore::Sealed(store) => store,
        };
        self.layers.push(
            IndexLayer {
                label: top.label,
                files_start: top.files_start,
                dirs_start: top.dirs_start,
                store: LayerStore::Sealed(store),
                sorted: top.sorted,
            },
        );
        assert(self.layers@.drop_last() =~= old(self).layers@.drop_last());
    }

    pub fn open_new(&mut self, label: Option<&str>, files_start: usize, dirs_start: usize)
        requires
            old(self).wf(),
            old(self).layers@.len() < 7,
        ensures
            final(self).wf(),
            final(self).layers@.len() == old(self).layers@.len() + 1,
            final(self).layers@.drop_last() == old(self).layers@,
            label_text(final(self).layers@.last().label) == (match label {
                Some(text) => Some(text@),
                None => None,
            }),
            final(self).layers@.last() == (IndexLayer {
                label: final(self).layers@.last().label,
                files_start,
                dirs_start,
                store: LayerStore::Open(None),
                sorted: false,
            }),
    {
        let label = match label {
            Some(text) => Some(text.to_owned()),
            None => None,
        };
        self.layers.push(
            IndexLayer {
                label,
                files_start,
                dirs_start,
                store: LayerStore::Open(None),
                sorted: false,
            },
        );
        assert(self.layers@.drop_last() =~= old(self).layers@);
    }

    /// The caller sorts the pushed range before any lookup reaches it.
    pub fn push_sealed(
        &mut self,
        label: Option<String>,
        store: ChunkedPathStore,
        files_start: usize,
        dirs_start: usize,
    )
        requires
            old(self).wf(),
            old(self).layers@.len() < 7,
            store.wf(),
        ensures
            final(self).wf(),
            final(self).layers@ == old(self).layers@.push(
                (IndexLayer {
                    label,
                    files_start,
                    dirs_start,
                    store: LayerStore::Sealed(store),
                    sorted: true,
                }),
            ),
    {
        self.layers.push(
            IndexLayer {
                label,
                files_start,
                dirs_start,
                store: LayerStore::Sealed(store),
                sorted: true,
            },
        );
    }

    pub fn set_sorted(&mut self, id: LayerId, sorted: bool)
        requires
            old(self).wf(),
        ensures
            final(self).wf(),
            old(self).has_id(id) ==> final(self).layers@ == old(self).layers@.update(
                id - 1,
                (IndexLayer { sorted, ..old(self).layers@[id - 1] }),
            ),
            !old(self).has_id(id) ==> final(self).layers@ == old(self).layers@,
    {
        if let Some(i) = self.index_of(id) {
            self.layers[i].sorted = sorted;
            assert(self.layers@ =~= old(self).layers@.update(
                id - 1,
                (IndexLayer { sorted, ..old(self).layers@[id - 1] }),
            ));
            assert forall|k: int| 0 <= k < self.layers@.len() implies (
            #[trigger] self.layers@[k]).store.wf() by {
                assert(old(self).layers@[k].store.wf());
            }
        }
    }

    pub fn is_sorted(&self, id: LayerId) -> (r: bool)
        ensures
            r == (self.has_id(id) && self.layers@[id - 1].sorted),
    {
        match self.index_of(id) {
            Some(i) => self.layers[i].sorted,
            None => false,
        }
    }

    pub fn label(&self, id: LayerId) -> (r: Option<String>)
        ensures
            label_text(r) == (if self.has_id(id) {
                label_text(self.layers@[id - 1].label)
            } else {
                None
            }),
    {
        match self.index_of(id) {
            Some(i) => same_label(&self.layers[i].label),
            None => None,
        }
    }

    /// A copy of the arena of `id`.
    pub fn store_snapshot(&self, id: LayerId) -> (r: Option<ChunkedPathStore>)
        requires
            self.wf(),
        ensures
            r is Some == self.has_id(id),
            r matches Some(copy) ==> is_store_copy(self.layers@[id - 1].store, copy),
    {
        match self.index_of(id) {
            Some(i) => {
                assert(self.layers@[i as int].store.wf());
                Some(
                    match &self.layers[i].store {
                        LayerStore::Sealed(store) => store.copy(),
                        LayerStore::Open(Some(builder)) => builder.store.copy(),
                        LayerStore::Open(None) => ChunkedPathStore::empty(),
                    },
                )
            },
            None => None,
        }
    }

    pub fn is_full(&self) -> (r: bool)
        ensures
            r == (self.layers@.len() >= MAX_OVERLAY_LAYERS),
    {
        self.layers.len() >= MAX_OVERLAY_LAYERS
    }

    /// Position of the older of the two newest layers, which a compaction
    /// merges. Only meaningful when the stack is full.
    pub fn merge_candidate(&self) -> (r: usize)
        requires
            self.layers@.len() >= 2,
        ensures
            r == self.layers@.len() - 2,
    {
        self.layers.len() - 2
    }

    /// Replaces layers `[at, at + 1]` with one layer owning `store`. Callers must
    /// have rewritten the affected paths into `store` already.
    pub fn merge_at(&mut self, at: usize, store: ChunkedPathStore)
        requires
            old(self).wf(),
            at + 1 < old(self).layers@.len(),
            store.wf(),
        ensures
            final(self).wf(),
            final(self).layers@ == old(self).layers@.remove(at + 1).update(
                at as int,
                (IndexLayer {
                    store: LayerStore::Sealed(store),
                    sorted: false,
                    ..old(self).layers@[at as int]
                }),
            ),
    {
        let _ = self.layers.remove(at + 1);
        let older = self.layers.remove(at);
        self.layers.insert(
            at,
            IndexLayer {
                label: older.label,
                files_start: older.files_start,
                dirs_start: older.dirs_start,
                store: LayerStore::Sealed(store),
                sorted: false,
            },
        );
        assert(self.layers@ =~= old(self).layers@.remove(at + 1).update(
            at as int,
            (IndexLayer {
                store: LayerStore::Sealed(store),
                sorted: false,
                ..old(self).layers@[at as int]
            }),
        ));
    }

    pub fn overlay_arena_bytes(&self) -> (r: usize)
        requires
            arena_bytes(self.layers@, self.layers@.len() as int) <= usize::MAX,
        ensures
            r == arena_bytes(self.layers@, self.layers@.len() as int),
    {
        let mut total: usize = 0;
        let mut i: usize = 0;
        while i < self.layers.len()
            invariant
                i <= self.layers@.len(),
                total == arena_bytes(self.layers@, i as int),
                arena_bytes(self.layers@, self.layers@.len() as int) <= usize::MAX,
            decreases self.layers@.len() - i,
        {
            proof {
                lemma_arena_bytes(self.layers@, i + 1, self.layers@.len() as int);
            }
            total += self.layers[i].store.heap_bytes();
            i += 1;
        }
        total
    }

    /// Describes the overlays, oldest first.
    pub fn info(&self, files: &[FileItem], dirs_len: usize) -> (r: Vec<LayerInfo>)
        requires
            self.wf(),
            self.bytes_fit(),
        ensures
            r@.len() == self.layers@.len(),
            forall|i: int|
                0 <= i < r@.len() ==> describes(
                    *self,
                    files@,
                    dirs_len as int,
                    i,
                    #[trigger] r@[i],
                ),
    {
        let mut out: Vec<LayerInfo> = Vec::new();
        let mut i: usize = 0;
        while i < self.layers.len()
            invariant
                self.wf(),
                self.bytes_fit(),
                i <= self.layers@.len(),
                out@.len() == i,
                forall|k: int|
                    0 <= k < i ==> describes(
                        *self,
                        files@,
                        dirs_len as int,
                        k,
                        #[trigger] out@[k],
                    ),
            decreases self.layers@.len() - i,
        {
            let (start, end) = self.files_at(i, files.len());
            let (dir_start, dir_end) = self.dirs_at(i, dirs_len);
            let live: usize = count_live(files, start, end);
            assert(self.layers@[i as int].store.byte_size() <= usize::MAX);
            out.push(
                LayerInfo {
                    id: (i + 1) as LayerId,
                    label: same_label(&self.layers[i].label),
                    file_count: end - start,
                    live_file_count: live,
                    dir_count: dir_end - dir_start,
                    arena_bytes: self.layers[i].store.heap_bytes(),
                    is_open: self.layers[i].store.is_open(),
                },
            );
            i += 1;
        }
        out
    }
}

proof fn lemma_arena_bytes(layers: Seq<IndexLayer>, i: int, n: int)
    requires
        i <= n,
    ensures
        arena_bytes(layers, i) <= arena_bytes(layers, n),
    decreases n,
{
    if i < n {
        if n > 0 {
            lemma_arena_bytes(layers, i, n - 1);
        }
    }
}

/// How many of the files `start..end` are live.
pub fn count_live(files: &[FileItem], start: usize, end: usize) -> (r: usize)
    requires
        start <= end <= files@.len(),
    ensures
        r == live_count(files@, start as int, end as int),
        r <= end - start,
{
    let mut live: usize = 0;
    let mut i: usize = start;
    while i < end
        invariant
            start <= i <= end <= files@.len(),
            live == live_count(files@, start as int, i as int),
            live <= i - start,
        decreases end - i,
    {
        if !files[i].is_deleted() {
            live += 1;
        }
        i += 1;
    }
    live
}

/// Whatever the table's length, a layer's range lies in it.
pub proof fn law_ranges_stay_in_bounds(stack: LayerStack, i: int, len: int)
    requires
        0 <= i < stack.layers@.len(),
        len >= 0,
    ensures
        0 <= stack.file_span(i, len).0 <= stack.file_span(i, len).1 <= len,
        0 <= stack.dir_span(i, len).0 <= stack.dir_span(i, len).1 <= len,
{
}

/// Where layers start in order and inside the table, their ranges follow one
/// another without gap or overlap up to the end of the table.
pub proof fn law_ranges_are_contiguous(stack: LayerStack, i: int, len: int)
    requires
        0 <= i < stack.layers@.len(),
        forall|a: int, b: int|
            0 <= a <= b < stack.layers@.len() ==> (#[trigger] stack.layers@[a]).files_start <= (
            #[trigger] stack.layers@[b]).files_start <= len,
    ensures
        stack.file_span(i, len).0 == stack.layers@[i].files_start,
        i + 1 < stack.layers@.len() ==> stack.file_span(i, len).1 == stack.file_span(i + 1, len).0,
        i + 1 == stack.layers@.len() ==> stack.file_span(i, len).1 == len,
{
    if i + 1 < stack.layers@.len() {
        assert(stack.layers@[i].files_start <= stack.layers@[i + 1].files_start <= len);
    } else {
        assert(stack.layers@[i].files_start <= stack.layers@[i].files_start <= len);
    }
}

/// A full stack never merges its session layer away.
pub proof fn law_session_layer_is_never_merged(stack: LayerStack)
    requires
        stack.layers@.len() >= MAX_OVERLAY_LAYERS,
    ensures
        stack.layers@.len() - 2 >= SESSION_LAYER,
{
}

/// Bytes of the arenas that the first `n` descriptions name.
pub open spec fn described_bytes(infos: Seq<LayerInfo>, n: int) -> nat
    decreases n,
{
    if n <= 0 {
        0
    } else {
        described_bytes(infos, n - 1) + infos[n - 1].arena_bytes as nat
    }
}

/// Descriptions of a stack in which each layer was sealed before the next was
/// opened: they come by id, their arenas add up to those of all overlays, and
/// at most the last layer is open.
pub proof fn law_descriptions_add_up(
    stack: LayerStack,
    files: Seq<FileItem>,
    dirs_len: int,
    infos: Seq<LayerInfo>,
    n: int,
)
    requires
        stack.wf(),
        forall|i: int|
            0 <= i < stack.layers@.len() - 1 ==> (#[trigger] stack.layers@[i]).store is Sealed,
        infos.len() == stack.layers@.len(),
        forall|i: int|
            0 <= i < infos.len() ==> describes(stack, files, dirs_len, i, #[trigger] infos[i]),
        0 <= n <= infos.len(),
    ensures
        described_bytes(infos, n) == arena_bytes(stack.layers@, n),
        forall|i: int|
            0 <= i < infos.len() ==> (#[trigger] infos[i]).id == i + 1 && infos[i].file_count
                == stack.file_span(i, files.len() as int).1 - stack.file_span(
                i,
                files.len() as int,
            ).0 && infos[i].live_file_count == live_count(
                files,
                stack.file_span(i, files.len() as int).0,
                stack.file_span(i, files.len() as int).1,
            ) && infos[i].dir_count == stack.dir_span(i, dirs_len).1 - stack.dir_span(
                i,
                dirs_len,
            ).0 && infos[i].is_open == (i == infos.len() - 1 && stack.layers@.last().store is Open),
    decreases n,
{
    if n > 0 {
        law_descriptions_add_up(stack, files, dirs_len, infos, n - 1);
        assert(describes(stack, files, dirs_len, n - 1, infos[n - 1]));
    }
    assert forall|i: int| 0 <= i < infos.len() implies (#[trigger] infos[i]).is_open == (i
        == infos.len() - 1 && stack.layers@.last().store is Open) by {
        assert(describes(stack, files, dirs_len, i, infos[i]));
        if i < infos.len() - 1 {
            assert(stack.layers@[i].store is Sealed);
        }
    }
}

/// Copies of one arena hold the same, and whatever is written to the layer
/// later, they go on to name the paths that they named.
pub proof fn law_copies_outlive_writes(
    store: LayerStore,
    first: ChunkedPathStore,
    second: ChunkedPathStore,
    later: ChunkedPathStore,
    p: ChunkedString,
)
    requires
        store.wf(),
        is_store_copy(store, first),
        is_store_copy(store, second),
        later.wf(),
        store.arena() matches Some(arena) && later.extends(arena) && arena.names_path(p),
    ensures
        first.same_as(second),
        first.names_path(p),
        first.path(p) == store.arena()->0.path(p),
        first.path(p) == later.path(p),
{
    let arena = store.arena()->0;
    assert(first.chunks@ == arena.chunks@ && first.indices@ == arena.indices@);
    assert(first.extends(arena)) by {
        assert(first.chunks@.take(arena.chunks@.len() as int) =~= arena.chunks@);
        assert(first.indices@.take(arena.indices@.len() as int) =~= arena.indices@);
    }
    simd_path::lemma_paths_survive_growth(arena, first, p);
    simd_path::lemma_paths_survive_growth(arena, later, p);
}

} // verus!
