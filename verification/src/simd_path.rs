//! Path arenas: paths cut into 16-byte chunks that are stored once each.

use crate::bytes;
use crate::types;
use std::collections::HashMap;
use vstd::prelude::*;

verus! {

broadcast use vstd::std_specs::hash::group_hash_axioms;

/// Width of one arena chunk.
pub const SIMD_CHUNK_BYTES: usize = 16;

/// Paths are shorter than this.
pub const PATH_BUF_SIZE: usize = 4096;

pub type SimdChunk = [u8; 16];

/// How many chunks hold `len` bytes.
pub open spec fn chunk_cost(len: nat) -> nat {
    (len + 15) / 16
}

/// Arena of a layer: the chunks, and the table through which paths name them.
pub struct ChunkedPathStore {
    pub chunks: Vec<SimdChunk>,
    pub indices: Vec<u32>,
}

/// Handle of one path: a run of the index table, its length in bytes and the
/// offset of its last segment.
#[derive(Clone, Copy, Debug, PartialEq, Eq, Structural)]
pub struct ChunkedString {
    pub index_offset: u32,
    pub byte_len: u16,
    pub filename_offset: u16,
}

/// The path that `p` names in an arena.
pub open spec fn path_in(chunks: Seq<SimdChunk>, indices: Seq<u32>, p: ChunkedString) -> Seq<u8> {
    Seq::new(
        p.byte_len as nat,
        |i: int| chunks[indices[p.index_offset + i / 16] as int]@[i % 16],
    )
}

impl ChunkedString {
    pub fn new(index_offset: u32, byte_len: u16, filename_offset: u16) -> (r: Self)
        ensures
            r == (ChunkedString { index_offset, byte_len, filename_offset }),
    {
        ChunkedString { index_offset, byte_len, filename_offset }
    }

    pub fn chunk_count(&self) -> (r: usize)
        ensures
            r == chunk_cost(self.byte_len as nat),
    {
        (self.byte_len as usize + 15) / 16
    }

    pub fn index_offset(&self) -> (r: u32)
        ensures
            r == self.index_offset,
    {
        self.index_offset
    }

    /// The path in `arena`, copied out.
    pub fn read(&self, arena: &ChunkedPathStore) -> (r: Vec<u8>)
        requires
            arena.wf(),
            arena.holds(*self),
        ensures
            r@ == arena.path(*self),
    {
        let mut out: Vec<u8> = Vec::new();
        let mut i: usize = 0;
        while i < self.byte_len as usize
            invariant
                arena.wf(),
                arena.holds(*self),
                i <= self.byte_len,
                out@ == arena.path(*self).take(i as int),
            decreases self.byte_len - i,
        {
            let slot: usize = self.index_offset as usize + i / 16;
            let chunk: [u8; 16] = arena.chunks[arena.indices[slot] as usize];
            out.push(chunk[i % 16]);
            i += 1;
            assert(out@ =~= arena.path(*self).take(i as int));
        }
        assert(arena.path(*self).take(i as int) =~= arena.path(*self));
        out
    }
}

impl ChunkedPathStore {
    /// Every table entry names a chunk, and both tables fit their counters.
    pub open spec fn wf(&self) -> bool {
        &&& self.chunks@.len() <= u32::MAX
        &&& self.indices@.len() <= u32::MAX
        &&& forall|i: int|
            0 <= i < self.indices@.len() ==> (#[trigger] self.indices@[i]) < self.chunks@.len()
    }

    /// The run of `p` lies in the index table.
    pub open spec fn holds(&self, p: ChunkedString) -> bool {
        p.index_offset + chunk_cost(p.byte_len as nat) <= self.indices@.len()
    }

    pub open spec fn path(&self, p: ChunkedString) -> Seq<u8> {
        path_in(self.chunks@, self.indices@, p)
    }

    /// `p` names a path that readers may slice: short enough, UTF-8, its last
    /// segment starting on a character boundary.
    pub open spec fn names_path(&self, p: ChunkedString) -> bool {
        &&& self.holds(p)
        &&& p.filename_offset <= p.byte_len < PATH_BUF_SIZE
        &&& vstd::utf8::valid_utf8(self.path(p))
        &&& vstd::utf8::is_char_boundary(self.path(p), p.filename_offset as int)
    }

    /// Whether the tables are sound.
    pub fn is_sound(&self) -> (r: bool)
        ensures
            r == self.wf(),
    {
        if self.chunks.len() as u64 > u32::MAX as u64 || self.indices.len() as u64 > u32::MAX as u64 {
            return false;
        }
        let mut i: usize = 0;
        while i < self.indices.len()
            invariant
                i <= self.indices@.len(),
                forall|k: int| 0 <= k < i ==> (#[trigger] self.indices@[k]) < self.chunks@.len(),
            decreases self.indices@.len() - i,
        {
            if self.indices[i] as usize >= self.chunks.len() {
                return false;
            }
            i += 1;
        }
        true
    }

    /// Whether `p` names a path.
    pub fn can_name(&self, p: ChunkedString) -> (r: bool)
        requires
            self.wf(),
        ensures
            r == self.names_path(p),
    {
        if p.index_offset as u64 + p.chunk_count() as u64 > self.indices.len() as u64
            || p.filename_offset > p.byte_len || p.byte_len as usize >= PATH_BUF_SIZE {
            return false;
        }
        let path = p.read(self);
        match types::utf8_text(path.as_slice()) {
            Some(text) => text.is_char_boundary(p.filename_offset as usize),
            None => false,
        }
    }

    /// Nothing of `old` moved: its tables are prefixes of these.
    pub open spec fn extends(&self, old: ChunkedPathStore) -> bool {
        &&& old.chunks@.is_prefix_of(self.chunks@)
        &&& old.indices@.is_prefix_of(self.indices@)
    }

    /// The longer of the two tables.
    pub open spec fn slots(&self) -> nat {
        if self.chunks@.len() > self.indices@.len() {
            self.chunks@.len()
        } else {
            self.indices@.len()
        }
    }

    pub open spec fn same_as(&self, other: ChunkedPathStore) -> bool {
        self.chunks@ == other.chunks@ && self.indices@ == other.indices@
    }

    pub fn from_parts(chunks: Vec<SimdChunk>, indices: Vec<u32>) -> (r: Self)
        ensures
            r.chunks@ == chunks@,
            r.indices@ == indices@,
    {
        ChunkedPathStore { chunks, indices }
    }

    pub fn empty() -> (r: Self)
        ensures
            r.chunks@.len() == 0,
            r.indices@.len() == 0,
            r.wf(),
    {
        ChunkedPathStore { chunks: Vec::new(), indices: Vec::new() }
    }

    pub fn chunks(&self) -> (r: &Vec<SimdChunk>)
        ensures
            r@ == self.chunks@,
    {
        &self.chunks
    }

    pub fn indices(&self) -> (r: &Vec<u32>)
        ensures
            r@ == self.indices@,
    {
        &self.indices
    }

    /// Bytes taken by the chunks and the index table.
    pub open spec fn byte_size(&self) -> nat {
        16 * self.chunks@.len() + 4 * self.indices@.len()
    }

    pub fn heap_bytes(&self) -> (r: usize)
        requires
            self.byte_size() <= usize::MAX,
        ensures
            r == self.byte_size(),
    {
        16 * self.chunks.len() + 4 * self.indices.len()
    }

    pub fn copy(&self) -> (r: Self)
        ensures
            r.same_as(*self),
    {
        let mut chunks: Vec<SimdChunk> = Vec::new();
        let mut i: usize = 0;
        while i < self.chunks.len()
            invariant
                i <= self.chunks@.len(),
                chunks@ == self.chunks@.take(i as int),
            decreases self.chunks@.len() - i,
        {
            chunks.push(self.chunks[i]);
            i += 1;
            assert(chunks@ =~= self.chunks@.take(i as int));
        }
        assert(self.chunks@.take(i as int) =~= self.chunks@);
        let indices = self.indices.clone();
        ChunkedPathStore { chunks, indices }
    }
}

/// Growing an arena leaves the paths that it names as they were.
pub proof fn lemma_paths_survive_growth(
    old_store: ChunkedPathStore,
    new_store: ChunkedPathStore,
    p: ChunkedString,
)
    requires
        old_store.wf(),
        new_store.extends(old_store),
        old_store.holds(p),
    ensures
        new_store.holds(p),
        new_store.path(p) == old_store.path(p),
{
    assert forall|i: int| 0 <= i < p.byte_len implies new_store.path(p)[i] == old_store.path(
        p,
    )[i] by {
        let slot = p.index_offset + i / 16;
        assert(0 <= slot < old_store.indices@.len());
        assert(new_store.indices@[slot] == old_store.indices@[slot]);
        assert(old_store.indices@[slot] < old_store.chunks@.len());
    }
    assert(new_store.path(p) =~= old_store.path(p));
}

fn chunk_key(chunk: &SimdChunk) -> (r: u128)
    ensures
        r == bytes::le_value(chunk@),
{
    let mut i: usize = 16;
    let mut value: u128 = 0;
    assert(chunk@.skip(16) =~= Seq::empty());
    while i > 0
        invariant
            i <= 16,
            value == bytes::le_value(chunk@.skip(i as int)),
            value < bytes::le_limit((16 - i) as nat),
        decreases i,
    {
        i -= 1;
        let ghost tail = chunk@.skip(i as int);
        assert(tail.drop_first() =~= chunk@.skip(i + 1));
        proof {
            bytes::lemma_le_limits();
            bytes::lemma_le_value_bound(tail);
            bytes::lemma_le_limit_monotone(tail.len(), 16);
        }
        value = value * 256 + chunk[i] as u128;
    }
    assert(chunk@.skip(0) =~= chunk@);
    value
}

/// The chunk at `start` of `path`, padded with zeroes.
pub open spec fn chunk_of(path: Seq<u8>, start: int) -> Seq<u8> {
    Seq::new(
        16,
        |i: int|
            if start + i < path.len() {
                path[start + i]
            } else {
                0u8
            },
    )
}

fn take_chunk(path: &[u8], start: usize) -> (r: SimdChunk)
    requires
        start <= path@.len(),
        path@.len() <= 0xffff,
    ensures
        r@ == chunk_of(path@, start as int),
{
    let mut chunk: SimdChunk = [0u8; 16];
    let mut i: usize = 0;
    while i < 16 && start + i < path.len()
        invariant
            i <= 16,
            path@.len() <= 0xffff,
            start <= path@.len(),
            forall|k: int| 0 <= k < i ==> start + k < path@.len() && chunk@[k] == path@[start + k],
            forall|k: int| i <= k < 16 ==> chunk@[k] == 0u8,
        decreases 16 - i,
    {
        chunk[i] = path[start + i];
        i += 1;
    }
    assert(chunk@ =~= chunk_of(path@, start as int));
    chunk
}

/// Writable arena. The table finds a chunk that is stored already.
pub struct ChunkedPathStoreBuilder {
    pub store: ChunkedPathStore,
    pub table: HashMap<u128, u32>,
}

impl ChunkedPathStoreBuilder {
    pub open spec fn wf(&self) -> bool {
        &&& self.store.wf()
        &&& forall|k: u128| #[trigger]
            self.table@.contains_key(k) ==> {
                &&& self.table@[k] < self.store.chunks@.len()
                &&& bytes::le_value(self.store.chunks@[self.table@[k] as int]@) == k
            }
        &&& forall|i: int|
            0 <= i < self.store.chunks@.len() ==> self.table@.contains_key(
                bytes::le_value((#[trigger] self.store.chunks@[i])@) as u128,
            )
    }

    /// No chunk is stored twice.
    pub open spec fn deduplicated(&self) -> bool {
        forall|i: int, j: int|
            0 <= i < j < self.store.chunks@.len() ==> (#[trigger] self.store.chunks@[i])@ != (
            #[trigger] self.store.chunks@[j])@
    }

    pub fn new(capacity: usize) -> (r: Self)
        ensures
            r.wf(),
            r.deduplicated(),
            r.store.chunks@.len() == 0,
            r.store.indices@.len() == 0,
    {
        let _ = capacity;
        ChunkedPathStoreBuilder { store: ChunkedPathStore::empty(), table: HashMap::new() }
    }

    /// Reopens a finished arena for writing.
    pub fn from_store(store: ChunkedPathStore, capacity: usize) -> (r: Self)
        requires
            store.wf(),
        ensures
            r.wf(),
            r.store.same_as(store),
    {
        let _ = capacity;
        let mut table: HashMap<u128, u32> = HashMap::new();
        let mut i: usize = 0;
        while i < store.chunks.len()
            invariant
                store.wf(),
                i <= store.chunks@.len(),
                forall|k: u128| #[trigger]
                    table@.contains_key(k) ==> {
                        &&& table@[k] < i
                        &&& bytes::le_value(store.chunks@[table@[k] as int]@) == k
                    },
                forall|j: int|
                    0 <= j < i ==> table@.contains_key(
                        bytes::le_value((#[trigger] store.chunks@[j])@) as u128,
                    ),
            decreases store.chunks@.len() - i,
        {
            let key: u128 = chunk_key(&store.chunks[i]);
            if table.get(&key).is_none() {
                table.insert(key, i as u32);
            }
            i += 1;
        }
        ChunkedPathStoreBuilder { store, table }
    }

    pub fn finish(self) -> (r: ChunkedPathStore)
        ensures
            r == self.store,
    {
        self.store
    }

    pub fn heap_bytes(&self) -> (r: usize)
        requires
            self.store.byte_size() <= usize::MAX,
        ensures
            r == self.store.byte_size(),
    {
        self.store.heap_bytes()
    }

    /// Number of the chunk, stored now if it was not there.
    fn intern(&mut self, chunk: SimdChunk) -> (r: u32)
        requires
            old(self).wf(),
            old(self).store.chunks@.len() < u32::MAX,
        ensures
            final(self).wf(),
            final(self).store.extends(old(self).store),
            final(self).store.indices@ == old(self).store.indices@,
            final(self).store.chunks@.len() <= old(self).store.chunks@.len() + 1,
            r < final(self).store.chunks@.len(),
            final(self).store.chunks@[r as int]@ == chunk@,
            old(self).deduplicated() ==> final(self).deduplicated(),
    {
        let key: u128 = chunk_key(&chunk);
        let found: Option<u32> = match self.table.get(&key) {
            Some(index) => Some(*index),
            None => None,
        };
        if let Some(index) = found {
            proof {
                bytes::lemma_le_value_injective(
                    self.store.chunks@[index as int]@,
                    chunk@,
                );
            }
            return index;
        }
        let index: u32 = self.store.chunks.len() as u32;
        let ghost before = self.store.chunks@;
        proof {
            bytes::lemma_le_value_bound(chunk@);
            bytes::lemma_le_limits();
            assert forall|i: int| 0 <= i < before.len() implies (#[trigger] before[i])@
                != chunk@ by {
                assert(self.table@.contains_key(bytes::le_value(before[i]@) as u128));
            }
        }
        self.store.chunks.push(chunk);
        self.table.insert(key, index);
        index
    }

    /// Stores `path` and returns its handle.
    pub fn add_bytes(&mut self, path: &[u8], filename_offset: u16) -> (r: ChunkedString)
        requires
            old(self).wf(),
            path@.len() < PATH_BUF_SIZE,
            old(self).store.slots() + chunk_cost(path@.len()) <= u32::MAX,
        ensures
            final(self).wf(),
            final(self).store.extends(old(self).store),
            final(self).store.slots() <= old(self).store.slots() + chunk_cost(path@.len()),
            final(self).store.indices@.len() == old(self).store.indices@.len() + chunk_cost(
                path@.len(),
            ),
            r.index_offset == old(self).store.indices@.len(),
            r.byte_len == path@.len(),
            r.filename_offset == filename_offset,
            final(self).store.holds(r),
            final(self).store.path(r) == path@,
            old(self).deduplicated() ==> final(self).deduplicated(),
    {
        let ghost old_store = self.store;
        let offset: usize = self.store.indices.len();
        let mut start: usize = 0;
        let mut done: usize = 0;
        while start < path.len()
            invariant
                self.wf(),
                path@.len() < PATH_BUF_SIZE,
                old_store == old(self).store,
                old_store.slots() + chunk_cost(path@.len()) <= u32::MAX,
                start == 16 * done,
                done <= chunk_cost(path@.len()),
                offset == old_store.indices@.len(),
                self.store.extends(old_store),
                self.store.slots() <= old_store.slots() + done,
                self.store.indices@.len() == offset + done,
                forall|k: int|
                    0 <= k < done ==> self.store.chunks@[(
                    #[trigger] self.store.indices@[offset + k]) as int]@ == chunk_of(
                        path@,
                        16 * k,
                    ),
                old(self).deduplicated() ==> self.deduplicated(),
            decreases chunk_cost(path@.len()) - done,
        {
            let ghost before = self.store;
            let chunk = take_chunk(path, start);
            let index: u32 = self.intern(chunk);
            let ghost mid = self.store;
            self.store.indices.push(index);
            assert forall|k: int| 0 <= k < done + 1 implies self.store.chunks@[(
            #[trigger] self.store.indices@[offset + k]) as int]@ == chunk_of(path@, 16 * k) by {
                if k < done {
                    assert(self.store.indices@[offset + k] == before.indices@[offset + k]);
                    assert(before.indices@[offset + k] < before.chunks@.len());
                    assert(before.chunks@[before.indices@[offset + k] as int]
                        == mid.chunks@[before.indices@[offset + k] as int]);
                }
            }
            assert(self.store.indices@.take(before.indices@.len() as int) =~= before.indices@);
            assert(self.store.indices@.take(old_store.indices@.len() as int)
                =~= old_store.indices@);
            done += 1;
            start += 16;
        }
        let path_handle = ChunkedString {
            index_offset: offset as u32,
            byte_len: path.len() as u16,
            filename_offset,
        };
        assert forall|i: int| 0 <= i < path@.len() implies self.store.path(path_handle)[i]
            == path@[i] by {
            let k = i / 16;
            assert(0 <= k < done);
            assert(self.store.chunks@[self.store.indices@[offset + k] as int]@ == chunk_of(
                path@,
                16 * k,
            ));
            assert(chunk_of(path@, 16 * k)[i % 16] == path@[i]);
        }
        assert(self.store.path(path_handle) =~= path@);
        path_handle
    }

    /// Stores a directory path, whose last segment starts at its end.
    pub fn add_dir_immediate(&mut self, path: &str) -> (r: ChunkedString)
        requires
            old(self).wf(),
            vstd::utf8::encode_utf8(path@).len() < PATH_BUF_SIZE,
            old(self).store.slots() + chunk_cost(vstd::utf8::encode_utf8(path@).len()) <= u32::MAX,
        ensures
            final(self).wf(),
            final(self).store.extends(old(self).store),
            final(self).store.slots() <= old(self).store.slots() + chunk_cost(
                vstd::utf8::encode_utf8(path@).len(),
            ),
            final(self).store.indices@.len() == old(self).store.indices@.len() + chunk_cost(
                vstd::utf8::encode_utf8(path@).len(),
            ),
            r.index_offset == old(self).store.indices@.len(),
            r.byte_len == vstd::utf8::encode_utf8(path@).len(),
            r.filename_offset == r.byte_len,
            final(self).store.holds(r),
            final(self).store.path(r) == vstd::utf8::encode_utf8(path@),
            old(self).deduplicated() ==> final(self).deduplicated(),
    {
        let raw = path.as_bytes();
        self.add_bytes(raw, raw.len() as u16)
    }

    /// Stores a file path, whose last segment starts at `filename_offset`.
    pub fn add_file_immediate(&mut self, path: &str, filename_offset: u16) -> (r: ChunkedString)
        requires
            old(self).wf(),
            vstd::utf8::encode_utf8(path@).len() < PATH_BUF_SIZE,
            old(self).store.slots() + chunk_cost(vstd::utf8::encode_utf8(path@).len()) <= u32::MAX,
        ensures
            final(self).wf(),
            final(self).store.extends(old(self).store),
            final(self).store.slots() <= old(self).store.slots() + chunk_cost(
                vstd::utf8::encode_utf8(path@).len(),
            ),
            final(self).store.indices@.len() == old(self).store.indices@.len() + chunk_cost(
                vstd::utf8::encode_utf8(path@).len(),
            ),
            r.index_offset == old(self).store.indices@.len(),
            r.byte_len == vstd::utf8::encode_utf8(path@).len(),
            r.filename_offset == filename_offset,
            final(self).store.holds(r),
            final(self).store.path(r) == vstd::utf8::encode_utf8(path@),
            old(self).deduplicated() ==> final(self).deduplicated(),
    {
        self.add_bytes(path.as_bytes(), filename_offset)
    }
}

/// Reference to a layer's arena; null for a layer without one.
#[derive(Clone, Copy)]
pub struct ArenaPtr<'a> {
    pub store: Option<&'a ChunkedPathStore>,
}

impl<'a> ArenaPtr<'a> {
    pub fn null() -> (r: Self)
        ensures
            r.store is None,
    {
        ArenaPtr { store: None }
    }

    pub fn new(store: &'a ChunkedPathStore) -> (r: Self)
        ensures
            r.store == Some(store),
    {
        ArenaPtr { store: Some(store) }
    }

    pub fn is_null(&self) -> (r: bool)
        ensures
            r == (self.store is None),
    {
        self.store.is_none()
    }
}

} // verus!
