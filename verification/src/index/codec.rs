//! The stored form of a layer.
//!
//! Little-endian: a 32-byte header, the label padded to 16 bytes, the chunk
//! arena, the chunk index table, then the directory and file records.

use crate::bytes;
use crate::error::{Error, LayerFormatError};
use crate::simd_path;
use crate::simd_path::{ChunkedPathStore, ChunkedString, SimdChunk, PATH_BUF_SIZE};
use crate::types;
use crate::types::{utf8_text, DirItem, FileItem};
use vstd::prelude::*;

verus! {

/// How the files of a snapshot are ordered.
#[derive(Clone, Copy, Debug, PartialEq, Eq, Structural)]
pub enum SnapshotLayout {
    /// Base scan order: indexable files first, each partition sorted by
    /// `(dir, name)`.
    BasePartitioned,
    /// Every file sorted by `(dir, name)`; overlay lookups binary search it.
    Sorted,
    Unsorted,
}

impl SnapshotLayout {
    pub open spec fn code(self) -> nat {
        match self {
            SnapshotLayout::BasePartitioned => 0,
            SnapshotLayout::Sorted => 1,
            SnapshotLayout::Unsorted => 2,
        }
    }

    pub fn to_code(&self) -> (r: u8)
        ensures
            r == self.code(),
    {
        match self {
            SnapshotLayout::BasePartitioned => 0,
            SnapshotLayout::Sorted => 1,
            SnapshotLayout::Unsorted => 2,
        }
    }
}

/// Self-contained copy of one index layer: files, dirs and the arena their
/// paths point into.
pub struct LayerSnapshot {
    pub label: Option<String>,
    pub store: ChunkedPathStore,
    /// `parent_dir_index` is local to `dirs`.
    pub files: Vec<FileItem>,
    pub dirs: Vec<DirItem>,
    pub layout: SnapshotLayout,
}

impl LayerSnapshot {
    /// Every row is live, carries no layer and names a path of the arena; every
    /// file names a directory.
    pub open spec fn wf(&self) -> bool {
        &&& self.store.wf()
        &&& self.dirs@.len() <= u32::MAX
        &&& self.files@.len() <= u32::MAX
        &&& forall|i: int|
            0 <= i < self.dirs@.len() ==> {
                &&& self.store.names_path((#[trigger] self.dirs@[i]).path)
                &&& !self.dirs@[i].deleted()
                &&& self.dirs@[i].layer() == 0
            }
        &&& forall|i: int|
            0 <= i < self.files@.len() ==> {
                &&& self.store.names_path((#[trigger] self.files@[i]).path)
                &&& self.files@[i].parent_dir_index < self.dirs@.len()
                &&& !self.files@[i].deleted()
                &&& self.files@[i].layer() == 0
            }
    }

    pub open spec fn file_text(&self, i: int) -> Seq<u8> {
        self.store.path(self.files@[i].path)
    }

    pub open spec fn file_key(&self, i: int) -> types::PathKey {
        types::path_key(self.file_text(i), self.files@[i].path.filename_offset as int)
    }

    pub open spec fn dir_text(&self, i: int) -> Seq<u8> {
        self.store.path(self.dirs@[i].path)
    }

    /// The label as it is stored: no label is stored as an empty one.
    pub open spec fn label_bytes(&self) -> Seq<u8> {
        match self.label {
            Some(label) => vstd::utf8::encode_utf8(label@),
            None => Seq::empty(),
        }
    }
}

/// `n` rounded up to whole chunks.
pub open spec fn padded(n: nat) -> nat {
    16 * ((n + 15) / 16)
}

/// `FFFLAYER`.
pub open spec fn magic() -> Seq<u8> {
    seq![0x46u8, 0x46, 0x46, 0x4c, 0x41, 0x59, 0x45, 0x52]
}

/// The records one after another.
pub open spec fn joined(records: Seq<Seq<u8>>) -> Seq<u8>
    decreases records.len(),
{
    if records.len() == 0 {
        Seq::empty()
    } else {
        joined(records.drop_last()) + records.last()
    }
}

pub open spec fn zeroes(n: nat) -> Seq<u8> {
    Seq::new(n, |i: int| 0u8)
}

pub open spec fn header_bytes(s: LayerSnapshot) -> Seq<u8> {
    magic() + bytes::le_bytes(1, 4) + bytes::le_bytes(s.layout.code(), 1) + bytes::le_bytes(0, 1)
        + bytes::le_bytes(s.label_bytes().len(), 2) + bytes::le_bytes(s.files@.len(), 4)
        + bytes::le_bytes(s.dirs@.len(), 4) + bytes::le_bytes(s.store.chunks@.len(), 4)
        + bytes::le_bytes(s.store.indices@.len(), 4)
}

pub open spec fn path_record(p: ChunkedString) -> Seq<u8> {
    bytes::le_bytes(p.index_offset as nat, 4) + bytes::le_bytes(p.byte_len as nat, 2)
}

pub open spec fn dir_record(d: DirItem) -> Seq<u8> {
    bytes::le_bytes(d.path.filename_offset as nat, 2) + path_record(d.path)
}

pub open spec fn file_record(f: FileItem) -> Seq<u8> {
    bytes::le_bytes(f.size as nat, 8) + bytes::le_bytes(f.modified as nat, 8) + bytes::le_bytes(
        if f.binary() {
            1
        } else {
            0
        },
        1,
    ) + bytes::le_bytes(f.path.filename_offset as nat, 2) + bytes::le_bytes(
        f.parent_dir_index as nat,
        4,
    ) + path_record(f.path)
}

/// Header, label and padding.
pub open spec fn front_bytes(s: LayerSnapshot) -> Seq<u8> {
    header_bytes(s) + s.label_bytes() + zeroes(
        (padded(s.label_bytes().len()) - s.label_bytes().len()) as nat,
    )
}

pub open spec fn chunk_records(s: LayerSnapshot) -> Seq<Seq<u8>> {
    Seq::new(s.store.chunks@.len(), |i: int| s.store.chunks@[i]@)
}

pub open spec fn index_records(s: LayerSnapshot) -> Seq<Seq<u8>> {
    Seq::new(s.store.indices@.len(), |i: int| bytes::le_bytes(s.store.indices@[i] as nat, 4))
}

pub open spec fn dir_records(s: LayerSnapshot) -> Seq<Seq<u8>> {
    Seq::new(s.dirs@.len(), |i: int| dir_record(s.dirs@[i]))
}

pub open spec fn file_records(s: LayerSnapshot) -> Seq<Seq<u8>> {
    Seq::new(s.files@.len(), |i: int| file_record(s.files@[i]))
}

/// The whole stored form of a snapshot.
pub open spec fn snapshot_bytes(s: LayerSnapshot) -> Seq<u8> {
    front_bytes(s) + joined(chunk_records(s)) + joined(index_records(s)) + joined(dir_records(s))
        + joined(file_records(s))
}

fn push_path_record(out: &mut Vec<u8>, p: &ChunkedString)
    ensures
        final(out)@ == old(out)@ + path_record(*p),
{
    bytes::push_le(out, p.index_offset as u64, 4);
    bytes::push_le(out, p.byte_len as u64, 2);
    assert(out@ =~= old(out)@ + path_record(*p));
}

fn push_dir_record(out: &mut Vec<u8>, d: &DirItem)
    ensures
        final(out)@ == old(out)@ + dir_record(*d),
{
    bytes::push_le(out, d.last_segment_offset() as u64, 2);
    push_path_record(out, &d.path);
    assert(out@ =~= old(out)@ + dir_record(*d));
}

fn push_file_record(out: &mut Vec<u8>, f: &FileItem)
    ensures
        final(out)@ == old(out)@ + file_record(*f),
{
    bytes::push_le(out, f.size, 8);
    bytes::push_le(out, f.modified, 8);
    let binary: u64 = if f.is_binary() {
        1
    } else {
        0
    };
    bytes::push_le(out, binary, 1);
    bytes::push_le(out, f.path.filename_offset as u64, 2);
    bytes::push_le(out, f.parent_dir_index as u64, 4);
    push_path_record(out, &f.path);
    assert(out@ =~= old(out)@ + file_record(*f));
}

fn front_of(s: &LayerSnapshot) -> (out: Vec<u8>)
    ensures
        out@ == front_bytes(*s),
{
    let mut out: Vec<u8> = Vec::new();
    out.push(0x46);
    out.push(0x46);
    out.push(0x46);
    out.push(0x4c);
    out.push(0x41);
    out.push(0x59);
    out.push(0x45);
    out.push(0x52);
    assert(out@ =~= magic());
    let empty: [u8; 0] = [];
    let label: &[u8] = match &s.label {
        Some(label) => label.as_str().as_bytes(),
        None => vstd::array::array_as_slice(&empty),
    };
    assert(label@ =~= s.label_bytes());
    bytes::push_le(&mut out, 1, 4);
    bytes::push_le(&mut out, s.layout.to_code() as u64, 1);
    bytes::push_le(&mut out, 0, 1);
    bytes::push_le(&mut out, label.len() as u64, 2);
    bytes::push_le(&mut out, s.files.len() as u64, 4);
    bytes::push_le(&mut out, s.dirs.len() as u64, 4);
    bytes::push_le(&mut out, s.store.chunks.len() as u64, 4);
    bytes::push_le(&mut out, s.store.indices.len() as u64, 4);
    out.extend_from_slice(label);
    let ghost filled = out@;
    assert(filled == header_bytes(*s) + s.label_bytes());
    let pad: usize = (16 - label.len() % 16) % 16;
    assert(pad == padded(s.label_bytes().len()) - s.label_bytes().len());
    let mut i: usize = 0;
    assert(out@ =~= filled + zeroes(0));
    while i < pad
        invariant
            i <= pad,
            out@ == filled + zeroes(i as nat),
        decreases pad - i,
    {
        out.push(0);
        i += 1;
        assert(out@ =~= filled + zeroes(i as nat));
    }
    out
}

impl LayerSnapshot {
    /// Appends the stored form to `out`, returning the bytes written.
    pub fn write_to(&self, out: &mut Vec<u8>) -> (written: u64)
        ensures
            final(out)@ == old(out)@ + snapshot_bytes(*self),
            written == snapshot_bytes(*self).len(),
    {
        let start: usize = out.len();
        let ghost before = out@;
        let mut front = front_of(self);
        out.append(&mut front);

        let ghost front = before + front_bytes(*self);
        let mut i: usize = 0;
        assert(out@ =~= front + joined(chunk_records(*self).take(0)));
        while i < self.store.chunks.len()
            invariant
                i <= self.store.chunks@.len(),
                out@ == front + joined(chunk_records(*self).take(i as int)),
            decreases self.store.chunks@.len() - i,
        {
            let chunk: SimdChunk = self.store.chunks[i];
            let ghost held = out@;
            let mut j: usize = 0;
            while j < 16
                invariant
                    j <= 16,
                    out@ == held + chunk@.take(j as int),
                decreases 16 - j,
            {
                out.push(chunk[j]);
                j += 1;
                assert(out@ =~= held + chunk@.take(j as int));
            }
            let ghost next = chunk_records(*self).take(i + 1);
            assert(next.drop_last() =~= chunk_records(*self).take(i as int));
            assert(chunk@.take(16) =~= chunk@);
            i += 1;
            assert(out@ =~= front + joined(chunk_records(*self).take(i as int)));
        }
        assert(chunk_records(*self).take(i as int) =~= chunk_records(*self));

        let ghost front = out@;
        let mut i: usize = 0;
        assert(out@ =~= front + joined(index_records(*self).take(0)));
        while i < self.store.indices.len()
            invariant
                i <= self.store.indices@.len(),
                out@ == front + joined(index_records(*self).take(i as int)),
            decreases self.store.indices@.len() - i,
        {
            bytes::push_le(out, self.store.indices[i] as u64, 4);
            assert(index_records(*self).take(i + 1).drop_last() =~= index_records(*self).take(
                i as int,
            ));
            i += 1;
            assert(out@ =~= front + joined(index_records(*self).take(i as int)));
        }
        assert(index_records(*self).take(i as int) =~= index_records(*self));

        let ghost front = out@;
        let mut i: usize = 0;
        assert(out@ =~= front + joined(dir_records(*self).take(0)));
        while i < self.dirs.len()
            invariant
                i <= self.dirs@.len(),
                out@ == front + joined(dir_records(*self).take(i as int)),
            decreases self.dirs@.len() - i,
        {
            push_dir_record(out, &self.dirs[i]);
            assert(dir_records(*self).take(i + 1).drop_last() =~= dir_records(*self).take(
                i as int,
            ));
            i += 1;
            assert(out@ =~= front + joined(dir_records(*self).take(i as int)));
        }
        assert(dir_records(*self).take(i as int) =~= dir_records(*self));

        let ghost front = out@;
        let mut i: usize = 0;
        assert(out@ =~= front + joined(file_records(*self).take(0)));
        while i < self.files.len()
            invariant
                i <= self.files@.len(),
                out@ == front + joined(file_records(*self).take(i as int)),
            decreases self.files@.len() - i,
        {
            push_file_record(out, &self.files[i]);
            assert(file_records(*self).take(i + 1).drop_last() =~= file_records(*self).take(
                i as int,
            ));
            i += 1;
            assert(out@ =~= front + joined(file_records(*self).take(i as int)));
        }
        assert(file_records(*self).take(i as int) =~= file_records(*self));
        assert(out@ =~= before + snapshot_bytes(*self));
        (out.len() - start) as u64
    }
}


/// The counts that a header holds.
pub struct Frame {
    pub label_len: nat,
    pub files: nat,
    pub dirs: nat,
    pub chunks: nat,
    pub indices: nat,
}

impl Frame {
    pub open spec fn arena_at(self) -> int {
        32int + padded(self.label_len)
    }

    pub open spec fn indices_at(self) -> int {
        self.arena_at() + 16 * self.chunks
    }

    pub open spec fn dirs_at(self) -> int {
        self.indices_at() + 4 * self.indices
    }

    pub open spec fn dir_at(self, i: int) -> int {
        self.dirs_at() + 8 * i
    }

    pub open spec fn files_at(self) -> int {
        self.dirs_at() + 8 * self.dirs
    }

    pub open spec fn file_at(self, i: int) -> int {
        self.files_at() + 29 * i
    }
}

/// The integer stored in `width` bytes at `at`.
pub open spec fn number_at(b: Seq<u8>, at: int, width: int) -> nat {
    bytes::le_value(b.subrange(at, at + width))
}

pub open spec fn frame_of(b: Seq<u8>) -> Frame {
    Frame {
        label_len: number_at(b, 14, 2),
        files: number_at(b, 16, 4),
        dirs: number_at(b, 20, 4),
        chunks: number_at(b, 24, 4),
        indices: number_at(b, 28, 4),
    }
}

/// Entry `i` of the stored index table.
pub open spec fn index_value(b: Seq<u8>, f: Frame, i: int) -> nat {
    number_at(b, f.indices_at() + 4 * i, 4)
}

/// The bytes that the stored tables hold for `p`.
pub open spec fn stored_path(b: Seq<u8>, f: Frame, p: ChunkedString) -> Seq<u8> {
    Seq::new(
        p.byte_len as nat,
        |k: int| b[f.arena_at() + 16 * index_value(b, f, p.index_offset + k / 16) + k % 16],
    )
}

pub open spec fn stored_dir_path(b: Seq<u8>, f: Frame, i: int) -> ChunkedString {
    ChunkedString {
        index_offset: number_at(b, f.dir_at(i) + 2, 4) as u32,
        byte_len: number_at(b, f.dir_at(i) + 6, 2) as u16,
        filename_offset: number_at(b, f.dir_at(i), 2) as u16,
    }
}

pub open spec fn stored_file_path(b: Seq<u8>, f: Frame, i: int) -> ChunkedString {
    ChunkedString {
        index_offset: number_at(b, f.file_at(i) + 23, 4) as u32,
        byte_len: number_at(b, f.file_at(i) + 27, 2) as u16,
        filename_offset: number_at(b, f.file_at(i) + 17, 2) as u16,
    }
}

/// What is wrong with the header, if anything.
pub open spec fn header_failure(b: Seq<u8>) -> Option<LayerFormatError> {
    if b.len() < 8 {
        Some(LayerFormatError::Truncated)
    } else if b.take(8) != magic() {
        Some(LayerFormatError::BadMagic)
    } else if b.len() < 12 {
        Some(LayerFormatError::Truncated)
    } else if number_at(b, 8, 4) != 1 {
        Some(LayerFormatError::UnsupportedVersion)
    } else if b.len() < 13 {
        Some(LayerFormatError::Truncated)
    } else if number_at(b, 12, 1) > 2 {
        Some(LayerFormatError::BadLayout)
    } else if b.len() < 32 {
        Some(LayerFormatError::Truncated)
    } else {
        None
    }
}

/// What is wrong with the label, the arena or the index table.
pub open spec fn tables_failure(b: Seq<u8>, f: Frame) -> Option<LayerFormatError> {
    if b.len() < 32 + f.label_len {
        Some(LayerFormatError::Truncated)
    } else if !vstd::utf8::valid_utf8(b.subrange(32, 32int + f.label_len)) {
        Some(LayerFormatError::LabelNotUtf8)
    } else if b.len() < f.dirs_at() {
        Some(LayerFormatError::Truncated)
    } else if exists|i: int| 0 <= i < f.indices && #[trigger] index_value(b, f, i) >= f.chunks {
        Some(LayerFormatError::ChunkIndexOutOfRange)
    } else {
        None
    }
}

/// What is wrong with a path record.
pub open spec fn path_failure(b: Seq<u8>, f: Frame, p: ChunkedString) -> Option<LayerFormatError> {
    if p.filename_offset > p.byte_len || p.byte_len >= PATH_BUF_SIZE || p.index_offset
        + simd_path::chunk_cost(p.byte_len as nat) > f.indices {
        Some(LayerFormatError::InconsistentPathRecord)
    } else if !vstd::utf8::valid_utf8(stored_path(b, f, p)) {
        Some(LayerFormatError::PathNotUtf8)
    } else if !vstd::utf8::is_char_boundary(stored_path(b, f, p), p.filename_offset as int) {
        Some(LayerFormatError::FilenameOffsetSplitsChar)
    } else {
        None
    }
}

pub open spec fn dir_failure(b: Seq<u8>, f: Frame, i: int) -> Option<LayerFormatError> {
    if b.len() < f.dir_at(i + 1) {
        Some(LayerFormatError::Truncated)
    } else {
        path_failure(b, f, stored_dir_path(b, f, i))
    }
}

pub open spec fn file_failure(b: Seq<u8>, f: Frame, i: int) -> Option<LayerFormatError> {
    if b.len() < f.file_at(i) + 23 {
        Some(LayerFormatError::Truncated)
    } else if number_at(b, f.file_at(i) + 19, 4) >= f.dirs {
        Some(LayerFormatError::ParentDirOutOfRange)
    } else if b.len() < f.file_at(i + 1) {
        Some(LayerFormatError::Truncated)
    } else {
        path_failure(b, f, stored_file_path(b, f, i))
    }
}

/// The failure of the first directory record from `i` on that has one.
pub open spec fn dirs_failure(b: Seq<u8>, f: Frame, i: int) -> Option<LayerFormatError>
    decreases f.dirs - i,
{
    if i >= f.dirs {
        None
    } else if dir_failure(b, f, i) is Some {
        dir_failure(b, f, i)
    } else {
        dirs_failure(b, f, i + 1)
    }
}

/// The failure of the first file record from `i` on that has one.
pub open spec fn files_failure(b: Seq<u8>, f: Frame, i: int) -> Option<LayerFormatError>
    decreases f.files - i,
{
    if i >= f.files {
        None
    } else if file_failure(b, f, i) is Some {
        file_failure(b, f, i)
    } else {
        files_failure(b, f, i + 1)
    }
}

/// The first thing that is wrong with a stored layer, read from its front;
/// `None` for one that can be loaded. Bytes behind the last record are ignored.
pub open spec fn failure(b: Seq<u8>) -> Option<LayerFormatError> {
    let f = frame_of(b);
    if header_failure(b) is Some {
        header_failure(b)
    } else if tables_failure(b, f) is Some {
        tables_failure(b, f)
    } else if dirs_failure(b, f, 0) is Some {
        dirs_failure(b, f, 0)
    } else {
        files_failure(b, f, 0)
    }
}

/// The arena is the stored one.
pub open spec fn decodes_store(b: Seq<u8>, f: Frame, store: ChunkedPathStore) -> bool {
    &&& store.chunks@.len() == f.chunks
    &&& store.indices@.len() == f.indices
    &&& forall|i: int|
        0 <= i < f.chunks ==> (#[trigger] store.chunks@[i])@ == b.subrange(
            f.arena_at() + 16 * i,
            f.arena_at() + 16 * i + 16,
        )
    &&& forall|i: int|
        0 <= i < f.indices ==> (#[trigger] store.indices@[i]) == index_value(b, f, i)
}

pub open spec fn decodes_dir(b: Seq<u8>, f: Frame, i: int, d: DirItem) -> bool {
    &&& d.path == stored_dir_path(b, f, i)
    &&& d.max_access_frecency == 0
    &&& !d.deleted()
    &&& d.layer() == 0
}

pub open spec fn decodes_file(b: Seq<u8>, f: Frame, i: int, file: FileItem) -> bool {
    &&& file.path == stored_file_path(b, f, i)
    &&& file.size == number_at(b, f.file_at(i), 8)
    &&& file.modified == number_at(b, f.file_at(i) + 8, 8)
    &&& file.binary() == (number_at(b, f.file_at(i) + 16, 1) != 0)
    &&& file.parent_dir_index == number_at(b, f.file_at(i) + 19, 4)
    &&& file.access_frecency_score == 0
    &&& file.modification_frecency_score == 0
    &&& file.git_recency_score == 0
    &&& !file.git_modified
    &&& !file.deleted()
    &&& file.layer() == 0
}

pub open spec fn decodes_label(b: Seq<u8>, f: Frame, label: Option<String>) -> bool {
    match label {
        None => f.label_len == 0,
        Some(label) => f.label_len > 0 && vstd::utf8::encode_utf8(label@) == b.subrange(
            32,
            32int + f.label_len,
        ),
    }
}

/// `s` is what the stored bytes say.
pub open spec fn decodes(b: Seq<u8>, s: LayerSnapshot) -> bool {
    let f = frame_of(b);
    &&& s.layout.code() == number_at(b, 12, 1)
    &&& decodes_label(b, f, s.label)
    &&& decodes_store(b, f, s.store)
    &&& s.dirs@.len() == f.dirs
    &&& s.files@.len() == f.files
    &&& forall|i: int| 0 <= i < f.dirs ==> decodes_dir(b, f, i, #[trigger] s.dirs@[i])
    &&& forall|i: int| 0 <= i < f.files ==> decodes_file(b, f, i, #[trigger] s.files@[i])
}

/// A loaded arena holds the stored paths.
pub proof fn lemma_stored_paths(b: Seq<u8>, f: Frame, store: ChunkedPathStore, p: ChunkedString)
    requires
        store.wf(),
        decodes_store(b, f, store),
        b.len() >= f.dirs_at(),
        p.index_offset + simd_path::chunk_cost(p.byte_len as nat) <= f.indices,
    ensures
        store.path(p) == stored_path(b, f, p),
{
    assert forall|k: int| 0 <= k < p.byte_len implies store.path(p)[k] == stored_path(
        b,
        f,
        p,
    )[k] by {
        let slot = p.index_offset + k / 16;
        assert(0 <= slot < f.indices);
        let c = store.indices@[slot];
        assert(c == index_value(b, f, slot));
        assert(c < store.chunks@.len());
        assert(store.chunks@[c as int]@ == b.subrange(
            f.arena_at() + 16 * c,
            f.arena_at() + 16 * c + 16,
        ));
    }
    assert(store.path(p) =~= stored_path(b, f, p));
}

fn number(b: &[u8], at: usize, width: usize) -> (r: u64)
    requires
        width <= 8,
        at + width <= b@.len(),
    ensures
        r == number_at(b@, at as int, width as int),
        width == 1 ==> r < 0x100,
        width == 2 ==> r < 0x1_0000,
        width == 4 ==> r < 0x1_0000_0000,
{
    proof {
        bytes::lemma_le_limits();
    }
    assert(at + width <= b.len());
    bytes::read_le(vstd::slice::slice_subrange(b, at, at + width))
}

fn check_header(b: &[u8]) -> (r: Result<SnapshotLayout, LayerFormatError>)
    ensures
        match r {
            Ok(layout) => header_failure(b@) is None && layout.code() == number_at(b@, 12, 1),
            Err(e) => header_failure(b@) == Some(e),
        },
{
    if b.len() < 8 {
        return Err(LayerFormatError::Truncated);
    }
    let expected: [u8; 8] = [0x46, 0x46, 0x46, 0x4c, 0x41, 0x59, 0x45, 0x52];
    assert(expected@ =~= magic());
    let found = vstd::slice::slice_subrange(b, 0, 8);
    assert(found@ =~= b@.take(8));
    if !bytes::same_bytes(found, vstd::array::array_as_slice(&expected)) {
        return Err(LayerFormatError::BadMagic);
    }
    if b.len() < 12 {
        return Err(LayerFormatError::Truncated);
    }
    if number(b, 8, 4) != 1 {
        return Err(LayerFormatError::UnsupportedVersion);
    }
    if b.len() < 13 {
        return Err(LayerFormatError::Truncated);
    }
    let code: u64 = number(b, 12, 1);
    if code > 2 {
        return Err(LayerFormatError::BadLayout);
    }
    if b.len() < 32 {
        return Err(LayerFormatError::Truncated);
    }
    if code == 0 {
        Ok(SnapshotLayout::BasePartitioned)
    } else if code == 1 {
        Ok(SnapshotLayout::Sorted)
    } else {
        Ok(SnapshotLayout::Unsorted)
    }
}

fn read_store(b: &[u8], Ghost(f): Ghost<Frame>, arena_at: usize, chunks: usize, indices: usize) -> (r:
    Option<ChunkedPathStore>)
    requires
        f.chunks == chunks <= u32::MAX,
        f.indices == indices <= u32::MAX,
        f.arena_at() == arena_at,
        b@.len() >= f.dirs_at(),
    ensures
        match r {
            Some(store) => store.wf() && decodes_store(b@, f, store) && forall|i: int|
                0 <= i < f.indices ==> #[trigger] index_value(b@, f, i) < f.chunks,
            None => exists|i: int|
                0 <= i < f.indices && #[trigger] index_value(b@, f, i) >= f.chunks,
        },
{
    let total: usize = b.len();
    let mut arena: Vec<SimdChunk> = Vec::new();
    let mut i: usize = 0;
    while i < chunks
        invariant
            i <= chunks,
            f.chunks == chunks <= u32::MAX,
            f.arena_at() == arena_at,
            b@.len() == total >= f.dirs_at(),
            arena@.len() == i,
            forall|k: int|
                0 <= k < i ==> (#[trigger] arena@[k])@ == b@.subrange(
                    f.arena_at() + 16 * k,
                    f.arena_at() + 16 * k + 16,
                ),
        decreases chunks - i,
    {
        let mut chunk: SimdChunk = [0u8; 16];
        let mut j: usize = 0;
        while j < 16
            invariant
                i < chunks,
                f.chunks == chunks,
                f.arena_at() == arena_at,
                b@.len() == total >= f.dirs_at(),
                j <= 16,
                forall|k: int| 0 <= k < j ==> chunk@[k] == b@[f.arena_at() + 16 * i + k],
            decreases 16 - j,
        {
            chunk[j] = b[arena_at + 16 * i + j];
            j += 1;
        }
        assert(chunk@ =~= b@.subrange(f.arena_at() + 16 * i, f.arena_at() + 16 * i + 16));
        arena.push(chunk);
        i += 1;
    }
    let indices_at: usize = arena_at + 16 * chunks;
    let mut table: Vec<u32> = Vec::new();
    let mut i: usize = 0;
    while i < indices
        invariant
            i <= indices,
            f.chunks == chunks <= u32::MAX,
            f.indices == indices,
            f.indices_at() == indices_at,
            b@.len() == total >= f.dirs_at(),
            table@.len() == i,
            forall|k: int|
                0 <= k < i ==> (#[trigger] table@[k]) == index_value(b@, f, k) && index_value(
                    b@,
                    f,
                    k,
                ) < f.chunks,
        decreases indices - i,
    {
        let value: u64 = number(b, indices_at + 4 * i, 4);
        assert(value == index_value(b@, f, i as int));
        if value >= chunks as u64 {
            return None;
        }
        table.push(value as u32);
        i += 1;
    }
    assert forall|k: int| 0 <= k < f.indices implies #[trigger] index_value(b@, f, k)
        < f.chunks by {
        assert(table@[k] == index_value(b@, f, k));
    }
    Some(ChunkedPathStore::from_parts(arena, table))
}

/// Checks a path record. Every reader slices paths unchecked, so the bytes are
/// validated here once: UTF-8, and the last segment on a character boundary.
fn check_path(
    b: Ghost<Seq<u8>>,
    f: Ghost<Frame>,
    store: &ChunkedPathStore,
    path: ChunkedString,
) -> (r: Option<LayerFormatError>)
    requires
        store.wf(),
        decodes_store(b@, f@, *store),
        b@.len() >= f@.dirs_at(),
    ensures
        r == path_failure(b@, f@, path),
        r is None ==> store.names_path(path),
{
    let index_end: u64 = path.index_offset as u64 + path.chunk_count() as u64;
    if path.filename_offset > path.byte_len || path.byte_len as usize >= PATH_BUF_SIZE || index_end
        > store.indices.len() as u64 {
        return Some(LayerFormatError::InconsistentPathRecord);
    }
    proof {
        lemma_stored_paths(b@, f@, *store, path);
    }
    let text = path.read(store);
    match utf8_text(text.as_slice()) {
        None => Some(LayerFormatError::PathNotUtf8),
        Some(text) => {
            if text.is_char_boundary(path.filename_offset as usize) {
                None
            } else {
                Some(LayerFormatError::FilenameOffsetSplitsChar)
            }
        },
    }
}

impl LayerSnapshot {
    /// Loads a stored layer.
    pub fn from_bytes(b: &[u8]) -> (r: Result<LayerSnapshot, Error>)
        ensures
            match r {
                Ok(s) => failure(b@) is None && decodes(b@, s) && s.wf(),
                Err(e) => failure(b@) is Some && e == Error::LayerFormat(failure(b@)->0),
            },
    {
        let layout = match check_header(b) {
            Ok(layout) => layout,
            Err(e) => {
                return Err(Error::LayerFormat(e));
            },
        };
        let ghost f = frame_of(b@);
        let label_len: usize = number(b, 14, 2) as usize;
        let file_count: u32 = number(b, 16, 4) as u32;
        let dir_count: u32 = number(b, 20, 4) as u32;
        let chunk_count: u64 = number(b, 24, 4);
        let index_count: u64 = number(b, 28, 4);

        if b.len() - 32 < label_len {
            return Err(Error::LayerFormat(LayerFormatError::Truncated));
        }
        let raw_label = vstd::slice::slice_subrange(b, 32, 32 + label_len);
        let label = match utf8_text(raw_label) {
            None => {
                return Err(Error::LayerFormat(LayerFormatError::LabelNotUtf8));
            },
            Some(text) => {
                if label_len == 0 {
                    None
                } else {
                    Some(text.to_owned())
                }
            },
        };
        assert(decodes_label(b@, f, label));
        let arena_at: u64 = 32 + 16 * ((label_len as u64 + 15) / 16);
        let dirs_at: u64 = arena_at + 16 * chunk_count + 4 * index_count;
        assert(dirs_at == f.dirs_at());
        if (b.len() as u64) < dirs_at {
            return Err(Error::LayerFormat(LayerFormatError::Truncated));
        }
        let store = match read_store(
            b,
            Ghost(f),
            arena_at as usize,
            chunk_count as usize,
            index_count as usize,
        ) {
            Some(store) => store,
            None => {
                return Err(Error::LayerFormat(LayerFormatError::ChunkIndexOutOfRange));
            },
        };
        assert(tables_failure(b@, f) is None);

        let mut at: usize = dirs_at as usize;
        let mut dirs: Vec<DirItem> = Vec::new();
        let mut i: u32 = 0;
        while i < dir_count
            invariant
                f == frame_of(b@),
                header_failure(b@) is None,
                tables_failure(b@, f) is None,
                i <= dir_count,
                dir_count == f.dirs,
                at == f.dir_at(i as int),
                at <= b@.len(),
                store.wf(),
                decodes_store(b@, f, store),
                b@.len() >= f.dirs_at(),
                dirs@.len() == i,
                forall|k: int| 0 <= k < i ==> decodes_dir(b@, f, k, #[trigger] dirs@[k]),
                forall|k: int| 0 <= k < i ==> store.names_path((#[trigger] dirs@[k]).path),
                dirs_failure(b@, f, 0) == dirs_failure(b@, f, i as int),
            decreases dir_count - i,
        {
            if b.len() - at < 8 {
                return Err(Error::LayerFormat(LayerFormatError::Truncated));
            }
            let last_segment_offset: u16 = number(b, at, 2) as u16;
            let index_offset: u32 = number(b, at + 2, 4) as u32;
            let byte_len: u16 = number(b, at + 6, 2) as u16;
            let path = ChunkedString::new(index_offset, byte_len, last_segment_offset);
            assert(path == stored_dir_path(b@, f, i as int));
            if let Some(e) = check_path(Ghost(b@), Ghost(f), &store, path) {
                return Err(Error::LayerFormat(e));
            }
            dirs.push(DirItem::new(path, last_segment_offset));
            at += 8;
            i += 1;
        }

        let mut files: Vec<FileItem> = Vec::new();
        let mut i: u32 = 0;
        while i < file_count
            invariant
                f == frame_of(b@),
                header_failure(b@) is None,
                tables_failure(b@, f) is None,
                dirs_failure(b@, f, 0) is None,
                i <= file_count,
                file_count == f.files,
                dir_count == f.dirs,
                at == f.file_at(i as int),
                at <= b@.len(),
                store.wf(),
                decodes_store(b@, f, store),
                b@.len() >= f.dirs_at(),
                files@.len() == i,
                forall|k: int| 0 <= k < i ==> decodes_file(b@, f, k, #[trigger] files@[k]),
                forall|k: int|
                    0 <= k < i ==> {
                        &&& store.names_path((#[trigger] files@[k]).path)
                        &&& files@[k].parent_dir_index < dir_count
                    },
                files_failure(b@, f, 0) == files_failure(b@, f, i as int),
            decreases file_count - i,
        {
            if b.len() - at < 23 {
                return Err(Error::LayerFormat(LayerFormatError::Truncated));
            }
            let size: u64 = number(b, at, 8);
            let modified: u64 = number(b, at + 8, 8);
            let binary: bool = number(b, at + 16, 1) != 0;
            let filename_offset: u16 = number(b, at + 17, 2) as u16;
            let parent_dir_index: u32 = number(b, at + 19, 4) as u32;
            if parent_dir_index >= dir_count {
                return Err(Error::LayerFormat(LayerFormatError::ParentDirOutOfRange));
            }
            if b.len() - at < 29 {
                return Err(Error::LayerFormat(LayerFormatError::Truncated));
            }
            let index_offset: u32 = number(b, at + 23, 4) as u32;
            let byte_len: u16 = number(b, at + 27, 2) as u16;
            let path = ChunkedString::new(index_offset, byte_len, filename_offset);
            assert(path == stored_file_path(b@, f, i as int));
            if let Some(e) = check_path(Ghost(b@), Ghost(f), &store, path) {
                return Err(Error::LayerFormat(e));
            }
            let mut file = FileItem::new_raw(filename_offset, size, modified, false, binary);
            file.set_path(path);
            file.parent_dir_index = parent_dir_index;
            assert(decodes_file(b@, f, i as int, file));
            files.push(file);
            at += 29;
            i += 1;
        }
        Ok(LayerSnapshot { label, store, files, dirs, layout })
    }
}


proof fn lemma_joined_len(records: Seq<Seq<u8>>, w: nat)
    requires
        forall|i: int| 0 <= i < records.len() ==> (#[trigger] records[i]).len() == w,
    ensures
        joined(records).len() == w * records.len(),
    decreases records.len(),
{
    if records.len() > 0 {
        let rest = records.drop_last();
        lemma_joined_len(rest, w);
        assert(w * records.len() == w * rest.len() + w) by (nonlinear_arith)
            requires
                records.len() == rest.len() + 1,
        ;
    } else {
        assert(w * records.len() == 0) by (nonlinear_arith)
            requires
                records.len() == 0,
        ;
    }
}

proof fn lemma_joined_at(records: Seq<Seq<u8>>, w: nat, i: int)
    requires
        forall|k: int| 0 <= k < records.len() ==> (#[trigger] records[k]).len() == w,
        0 <= i < records.len(),
    ensures
        0 <= w * i,
        w * i + w <= joined(records).len(),
        joined(records).subrange(w * i, w * i + w) == records[i],
    decreases records.len(),
{
    let rest = records.drop_last();
    let n = rest.len() as int;
    lemma_joined_len(records, w);
    lemma_joined_len(rest, w);
    assert(0 <= w * i) by (nonlinear_arith)
        requires
            0 <= i,
    ;
    assert(w * records.len() == w * n + w) by (nonlinear_arith)
        requires
            records.len() == n + 1,
    ;
    if i < n {
        lemma_joined_at(rest, w, i);
        assert(joined(records).subrange(w * i, w * i + w) =~= joined(rest).subrange(
            w * i,
            w * i + w,
        ));
    } else {
        assert(joined(records).subrange(w * i, w * i + w) =~= records[i]);
    }
}

/// Record `i` of a table that stands between `front` and `back`.
proof fn lemma_table_entry(
    b: Seq<u8>,
    front: Seq<u8>,
    records: Seq<Seq<u8>>,
    back: Seq<u8>,
    w: nat,
    i: int,
)
    requires
        b == front + joined(records) + back,
        forall|k: int| 0 <= k < records.len() ==> (#[trigger] records[k]).len() == w,
        0 <= i < records.len(),
    ensures
        b.subrange(front.len() + w * i, front.len() + w * i + w) == records[i],
{
    lemma_joined_at(records, w, i);
    assert(b.subrange(front.len() + w * i, front.len() + w * i + w) =~= joined(records).subrange(
        w * i,
        w * i + w,
    ));
}

proof fn lemma_part(b: Seq<u8>, at: int, record: Seq<u8>, x: int, y: int)
    requires
        0 <= at,
        at + record.len() <= b.len(),
        b.subrange(at, at + record.len()) == record,
        0 <= x <= y <= record.len(),
    ensures
        b.subrange(at + x, at + y) == record.subrange(x, y),
{
    assert(b.subrange(at + x, at + y) =~= b.subrange(at, at + record.len()).subrange(x, y));
}

proof fn lemma_stored_number(b: Seq<u8>, at: int, record: Seq<u8>, x: int, width: nat, value: nat)
    requires
        0 <= at,
        at + record.len() <= b.len(),
        b.subrange(at, at + record.len()) == record,
        0 <= x,
        x + width <= record.len(),
        record.subrange(x, x + width) == bytes::le_bytes(value, width),
        value < bytes::le_limit(width),
    ensures
        number_at(b, at + x, width as int) == value,
{
    lemma_part(b, at, record, x, x + width);
    bytes::lemma_le_round_trip(value, width);
    assert(at + x + width == at + (x + width));
}

proof fn lemma_record_lens(value: nat)
    ensures
        bytes::le_bytes(value, 1).len() == 1,
        bytes::le_bytes(value, 2).len() == 2,
        bytes::le_bytes(value, 4).len() == 4,
        bytes::le_bytes(value, 8).len() == 8,
{
    bytes::lemma_le_bytes_len(value, 1);
    bytes::lemma_le_bytes_len(value, 2);
    bytes::lemma_le_bytes_len(value, 4);
    bytes::lemma_le_bytes_len(value, 8);
}

proof fn lemma_dir_record(d: DirItem)
    ensures
        dir_record(d).len() == 8,
        dir_record(d).subrange(0, 2) == bytes::le_bytes(d.path.filename_offset as nat, 2),
        dir_record(d).subrange(2, 6) == bytes::le_bytes(d.path.index_offset as nat, 4),
        dir_record(d).subrange(6, 8) == bytes::le_bytes(d.path.byte_len as nat, 2),
{
    lemma_record_lens(d.path.filename_offset as nat);
    lemma_record_lens(d.path.index_offset as nat);
    lemma_record_lens(d.path.byte_len as nat);
    let r = dir_record(d);
    assert(r.subrange(0, 2) =~= bytes::le_bytes(d.path.filename_offset as nat, 2));
    assert(r.subrange(2, 6) =~= bytes::le_bytes(d.path.index_offset as nat, 4));
    assert(r.subrange(6, 8) =~= bytes::le_bytes(d.path.byte_len as nat, 2));
}

pub open spec fn binary_code(f: FileItem) -> nat {
    if f.binary() {
        1
    } else {
        0
    }
}

proof fn lemma_file_record(f: FileItem)
    ensures
        file_record(f).len() == 29,
        file_record(f).subrange(0, 8) == bytes::le_bytes(f.size as nat, 8),
        file_record(f).subrange(8, 16) == bytes::le_bytes(f.modified as nat, 8),
        file_record(f).subrange(16, 17) == bytes::le_bytes(binary_code(f), 1),
        file_record(f).subrange(17, 19) == bytes::le_bytes(f.path.filename_offset as nat, 2),
        file_record(f).subrange(19, 23) == bytes::le_bytes(f.parent_dir_index as nat, 4),
        file_record(f).subrange(23, 27) == bytes::le_bytes(f.path.index_offset as nat, 4),
        file_record(f).subrange(27, 29) == bytes::le_bytes(f.path.byte_len as nat, 2),
{
    lemma_record_lens(f.size as nat);
    lemma_record_lens(f.modified as nat);
    lemma_record_lens(binary_code(f));
    lemma_record_lens(f.path.filename_offset as nat);
    lemma_record_lens(f.parent_dir_index as nat);
    lemma_record_lens(f.path.index_offset as nat);
    lemma_record_lens(f.path.byte_len as nat);
    let r = file_record(f);
    assert(r.subrange(0, 8) =~= bytes::le_bytes(f.size as nat, 8));
    assert(r.subrange(8, 16) =~= bytes::le_bytes(f.modified as nat, 8));
    assert(r.subrange(16, 17) =~= bytes::le_bytes(binary_code(f), 1));
    assert(r.subrange(17, 19) =~= bytes::le_bytes(f.path.filename_offset as nat, 2));
    assert(r.subrange(19, 23) =~= bytes::le_bytes(f.parent_dir_index as nat, 4));
    assert(r.subrange(23, 27) =~= bytes::le_bytes(f.path.index_offset as nat, 4));
    assert(r.subrange(27, 29) =~= bytes::le_bytes(f.path.byte_len as nat, 2));
}

proof fn lemma_header_record(s: LayerSnapshot)
    ensures
        header_bytes(s).len() == 32,
        header_bytes(s).subrange(0, 8) == magic(),
        header_bytes(s).subrange(8, 12) == bytes::le_bytes(1, 4),
        header_bytes(s).subrange(12, 13) == bytes::le_bytes(s.layout.code(), 1),
        header_bytes(s).subrange(14, 16) == bytes::le_bytes(s.label_bytes().len(), 2),
        header_bytes(s).subrange(16, 20) == bytes::le_bytes(s.files@.len(), 4),
        header_bytes(s).subrange(20, 24) == bytes::le_bytes(s.dirs@.len(), 4),
        header_bytes(s).subrange(24, 28) == bytes::le_bytes(s.store.chunks@.len(), 4),
        header_bytes(s).subrange(28, 32) == bytes::le_bytes(s.store.indices@.len(), 4),
{
    lemma_record_lens(1);
    lemma_record_lens(0);
    lemma_record_lens(s.layout.code());
    lemma_record_lens(s.label_bytes().len());
    lemma_record_lens(s.files@.len());
    lemma_record_lens(s.dirs@.len());
    lemma_record_lens(s.store.chunks@.len());
    lemma_record_lens(s.store.indices@.len());
    let h = header_bytes(s);
    assert(h.subrange(0, 8) =~= magic());
    assert(h.subrange(8, 12) =~= bytes::le_bytes(1, 4));
    assert(h.subrange(12, 13) =~= bytes::le_bytes(s.layout.code(), 1));
    assert(h.subrange(14, 16) =~= bytes::le_bytes(s.label_bytes().len(), 2));
    assert(h.subrange(16, 20) =~= bytes::le_bytes(s.files@.len(), 4));
    assert(h.subrange(20, 24) =~= bytes::le_bytes(s.dirs@.len(), 4));
    assert(h.subrange(24, 28) =~= bytes::le_bytes(s.store.chunks@.len(), 4));
    assert(h.subrange(28, 32) =~= bytes::le_bytes(s.store.indices@.len(), 4));
}

/// What the header of a stored snapshot says.
proof fn lemma_header_numbers(s: LayerSnapshot)
    requires
        s.wf(),
        s.label_bytes().len() <= u16::MAX,
    ensures
        ({
            let b = snapshot_bytes(s);
            let f = frame_of(b);
            &&& header_failure(b) is None
            &&& number_at(b, 12, 1) == s.layout.code()
            &&& f.label_len == s.label_bytes().len()
            &&& f.files == s.files@.len()
            &&& f.dirs == s.dirs@.len()
            &&& f.chunks == s.store.chunks@.len()
            &&& f.indices == s.store.indices@.len()
        }),
{
    let b = snapshot_bytes(s);
    let h = header_bytes(s);
    lemma_header_record(s);
    bytes::lemma_le_limits();
    assert(b.subrange(0, 32) =~= h);
    assert(b.take(8) =~= b.subrange(0, 8));
    lemma_part(b, 0, h, 0, 8);
    lemma_stored_number(b, 0, h, 8, 4, 1);
    lemma_stored_number(b, 0, h, 12, 1, s.layout.code());
    lemma_stored_number(b, 0, h, 14, 2, s.label_bytes().len());
    lemma_stored_number(b, 0, h, 16, 4, s.files@.len());
    lemma_stored_number(b, 0, h, 20, 4, s.dirs@.len());
    lemma_stored_number(b, 0, h, 24, 4, s.store.chunks@.len());
    lemma_stored_number(b, 0, h, 28, 4, s.store.indices@.len());
}

proof fn lemma_record_widths(s: LayerSnapshot)
    ensures
        forall|k: int|
            0 <= k < chunk_records(s).len() ==> (#[trigger] chunk_records(s)[k]).len() == 16,
        forall|k: int|
            0 <= k < index_records(s).len() ==> (#[trigger] index_records(s)[k]).len() == 4,
        forall|k: int| 0 <= k < dir_records(s).len() ==> (#[trigger] dir_records(s)[k]).len() == 8,
        forall|k: int|
            0 <= k < file_records(s).len() ==> (#[trigger] file_records(s)[k]).len() == 29,
{
    assert forall|k: int| 0 <= k < index_records(s).len() implies (#[trigger] index_records(
        s,
    )[k]).len() == 4 by {
        bytes::lemma_le_bytes_len(s.store.indices@[k] as nat, 4);
    }
    assert forall|k: int| 0 <= k < dir_records(s).len() implies (#[trigger] dir_records(
        s,
    )[k]).len() == 8 by {
        lemma_dir_record(s.dirs@[k]);
    }
    assert forall|k: int| 0 <= k < file_records(s).len() implies (#[trigger] file_records(
        s,
    )[k]).len() == 29 by {
        lemma_file_record(s.files@[k]);
    }
}

/// Where the parts of a stored snapshot lie.
proof fn lemma_parts(s: LayerSnapshot)
    requires
        s.wf(),
        s.label_bytes().len() <= u16::MAX,
    ensures
        ({
            let b = snapshot_bytes(s);
            let f = frame_of(b);
            &&& b.len() == f.file_at(f.files as int)
            &&& b.subrange(32, 32int + f.label_len) == s.label_bytes()
            &&& forall|i: int|
                0 <= i < f.chunks ==> b.subrange(f.arena_at() + 16 * i, f.arena_at() + 16 * i + 16)
                    == (#[trigger] s.store.chunks@[i])@
            &&& forall|i: int|
                0 <= i < f.indices ==> b.subrange(f.indices_at() + 4 * i, f.indices_at() + 4 * i + 4)
                    == bytes::le_bytes((#[trigger] s.store.indices@[i]) as nat, 4)
            &&& forall|i: int|
                0 <= i < f.dirs ==> b.subrange(f.dir_at(i), f.dir_at(i) + 8) == dir_record(
                    #[trigger] s.dirs@[i],
                )
            &&& forall|i: int|
                0 <= i < f.files ==> b.subrange(f.file_at(i), f.file_at(i) + 29) == file_record(
                    #[trigger] s.files@[i],
                )
        }),
{
    let b = snapshot_bytes(s);
    lemma_header_numbers(s);
    lemma_header_record(s);
    let f = frame_of(b);
    let front = front_bytes(s);
    assert(front.len() == f.arena_at());
    assert(front.subrange(32, 32int + f.label_len) =~= s.label_bytes());

    lemma_record_widths(s);
    let chunks = chunk_records(s);
    let indices = index_records(s);
    let dirs = dir_records(s);
    let files = file_records(s);
    lemma_joined_len(chunks, 16);
    lemma_joined_len(indices, 4);
    lemma_joined_len(dirs, 8);
    lemma_joined_len(files, 29);
    let jc = joined(chunks);
    let ji = joined(indices);
    let jd = joined(dirs);
    let jf = joined(files);
    assert(b == front + jc + ji + jd + jf);
    assert(b.subrange(32, 32int + f.label_len) =~= front.subrange(32, 32int + f.label_len));
    assert(b =~= front + jc + (ji + jd + jf));
    assert(b =~= (front + jc) + ji + (jd + jf));
    assert(b =~= (front + jc + ji + jd) + jf + Seq::<u8>::empty());
    assert forall|i: int| 0 <= i < f.chunks implies b.subrange(
        f.arena_at() + 16 * i,
        f.arena_at() + 16 * i + 16,
    ) == (#[trigger] s.store.chunks@[i])@ by {
        lemma_table_entry(b, front, chunks, ji + jd + jf, 16, i);
    }
    assert forall|i: int| 0 <= i < f.indices implies b.subrange(
        f.indices_at() + 4 * i,
        f.indices_at() + 4 * i + 4,
    ) == bytes::le_bytes((#[trigger] s.store.indices@[i]) as nat, 4) by {
        lemma_table_entry(b, front + jc, indices, jd + jf, 4, i);
    }
    assert forall|i: int| 0 <= i < f.dirs implies b.subrange(f.dir_at(i), f.dir_at(i) + 8)
        == dir_record(#[trigger] s.dirs@[i]) by {
        lemma_table_entry(b, front + jc + ji, dirs, jf, 8, i);
    }
    assert forall|i: int| 0 <= i < f.files implies b.subrange(f.file_at(i), f.file_at(i) + 29)
        == file_record(#[trigger] s.files@[i]) by {
        lemma_table_entry(b, front + jc + ji + jd, files, Seq::<u8>::empty(), 29, i);
    }
}

/// Two snapshots agree on everything that is stored.
pub open spec fn same_stored(a: LayerSnapshot, b: LayerSnapshot) -> bool {
    &&& a.layout == b.layout
    &&& a.label_bytes() == b.label_bytes()
    &&& a.store.same_as(b.store)
    &&& a.dirs@.len() == b.dirs@.len()
    &&& a.files@.len() == b.files@.len()
    &&& forall|i: int|
        0 <= i < a.dirs@.len() ==> (#[trigger] a.dirs@[i]).path == (#[trigger] b.dirs@[i]).path
    &&& forall|i: int|
        0 <= i < a.files@.len() ==> same_stored_file(#[trigger] a.files@[i], #[trigger] b.files@[i])
}

pub open spec fn same_stored_file(a: FileItem, b: FileItem) -> bool {
    &&& a.path == b.path
    &&& a.size == b.size
    &&& a.modified == b.modified
    &&& a.binary() == b.binary()
    &&& a.parent_dir_index == b.parent_dir_index
}

proof fn lemma_dirs_pass(b: Seq<u8>, f: Frame, i: int)
    requires
        0 <= i,
        forall|k: int| 0 <= k < f.dirs ==> #[trigger] dir_failure(b, f, k) is None,
    ensures
        dirs_failure(b, f, i) is None,
    decreases f.dirs - i,
{
    if i < f.dirs {
        lemma_dirs_pass(b, f, i + 1);
    }
}

proof fn lemma_files_pass(b: Seq<u8>, f: Frame, i: int)
    requires
        0 <= i,
        forall|k: int| 0 <= k < f.files ==> #[trigger] file_failure(b, f, k) is None,
    ensures
        files_failure(b, f, i) is None,
    decreases f.files - i,
{
    if i < f.files {
        lemma_files_pass(b, f, i + 1);
    }
}

/// Directory `i` of a stored snapshot reads back.
proof fn lemma_stored_dir(b: Seq<u8>, f: Frame, store: ChunkedPathStore, i: int, d: DirItem)
    requires
        store.wf(),
        decodes_store(b, f, store),
        0 <= i < f.dirs,
        b.len() >= f.files_at(),
        b.subrange(f.dir_at(i), f.dir_at(i) + 8) == dir_record(d),
        store.names_path(d.path),
    ensures
        stored_dir_path(b, f, i) == d.path,
        dir_failure(b, f, i) is None,
{
    let r = dir_record(d);
    bytes::lemma_le_limits();
    lemma_dir_record(d);
    lemma_stored_number(b, f.dir_at(i), r, 0, 2, d.path.filename_offset as nat);
    lemma_stored_number(b, f.dir_at(i), r, 2, 4, d.path.index_offset as nat);
    lemma_stored_number(b, f.dir_at(i), r, 6, 2, d.path.byte_len as nat);
    lemma_stored_paths(b, f, store, d.path);
}

/// File `i` of a stored snapshot reads back.
proof fn lemma_stored_file(b: Seq<u8>, f: Frame, store: ChunkedPathStore, i: int, file: FileItem)
    requires
        store.wf(),
        decodes_store(b, f, store),
        0 <= i < f.files,
        b.len() == f.file_at(f.files as int),
        b.subrange(f.file_at(i), f.file_at(i) + 29) == file_record(file),
        store.names_path(file.path),
        file.parent_dir_index < f.dirs,
    ensures
        stored_file_path(b, f, i) == file.path,
        file.size == number_at(b, f.file_at(i), 8),
        file.modified == number_at(b, f.file_at(i) + 8, 8),
        file.binary() == (number_at(b, f.file_at(i) + 16, 1) != 0),
        file.parent_dir_index == number_at(b, f.file_at(i) + 19, 4),
        file_failure(b, f, i) is None,
{
    let r = file_record(file);
    bytes::lemma_le_limits();
    lemma_file_record(file);
    lemma_stored_number(b, f.file_at(i), r, 0, 8, file.size as nat);
    lemma_stored_number(b, f.file_at(i), r, 8, 8, file.modified as nat);
    lemma_stored_number(b, f.file_at(i), r, 16, 1, binary_code(file));
    lemma_stored_number(b, f.file_at(i), r, 17, 2, file.path.filename_offset as nat);
    lemma_stored_number(b, f.file_at(i), r, 19, 4, file.parent_dir_index as nat);
    lemma_stored_number(b, f.file_at(i), r, 23, 4, file.path.index_offset as nat);
    lemma_stored_number(b, f.file_at(i), r, 27, 2, file.path.byte_len as nat);
    lemma_stored_paths(b, f, store, file.path);
}

/// The tables of a stored snapshot read back.
proof fn lemma_stored_tables(s: LayerSnapshot)
    requires
        s.wf(),
        s.label_bytes().len() <= u16::MAX,
    ensures
        decodes_store(snapshot_bytes(s), frame_of(snapshot_bytes(s)), s.store),
        tables_failure(snapshot_bytes(s), frame_of(snapshot_bytes(s))) is None,
{
    let b = snapshot_bytes(s);
    let f = frame_of(b);
    lemma_header_numbers(s);
    lemma_parts(s);
    bytes::lemma_le_limits();
    assert forall|i: int| 0 <= i < f.indices implies (#[trigger] s.store.indices@[i])
        == index_value(b, f, i) by {
        bytes::lemma_le_round_trip(s.store.indices@[i] as nat, 4);
        assert(b.subrange(f.indices_at() + 4 * i, f.indices_at() + 4 * i + 4) == bytes::le_bytes(
            s.store.indices@[i] as nat,
            4,
        ));
    }
    match s.label {
        Some(label) => {
            vstd::utf8::encode_utf8_valid_utf8(label@);
        },
        None => {},
    }
    assert forall|i: int| 0 <= i < f.indices implies #[trigger] index_value(b, f, i)
        < f.chunks by {
        assert(s.store.indices@[i] == index_value(b, f, i));
    }
}

/// Where files start in the stored form: behind the header, the label in whole
/// chunks, the chunks, the index table and directories of eight bytes.
pub open spec fn files_start(s: LayerSnapshot) -> int {
    32 + (s.label_bytes().len() as int + 15) / 16 * 16 + 16 * s.store.chunks@.len() + 4
        * s.store.indices@.len() + 8 * s.dirs@.len()
}

/// What the stored form starts with: a mark, a version, and how much of each kind
/// follows, each number with its lowest byte first. The label comes right behind.
pub proof fn law_stored_header(s: LayerSnapshot)
    requires
        s.wf(),
        s.label_bytes().len() <= u16::MAX,
    ensures
        ({
            let b = snapshot_bytes(s);
            let label = s.label_bytes().len() as int;
            &&& b.len() == files_start(s) + 29 * s.files@.len()
            &&& b.take(8) == seq![0x46u8, 0x46, 0x46, 0x4c, 0x41, 0x59, 0x45, 0x52]
            &&& bytes::le_value(b.subrange(8, 12)) == 1
            &&& bytes::le_value(b.subrange(14, 16)) == label
            &&& bytes::le_value(b.subrange(16, 20)) == s.files@.len()
            &&& bytes::le_value(b.subrange(20, 24)) == s.dirs@.len()
            &&& bytes::le_value(b.subrange(24, 28)) == s.store.chunks@.len()
            &&& bytes::le_value(b.subrange(28, 32)) == s.store.indices@.len()
            &&& b.subrange(32, 32 + label) == s.label_bytes()
        }),
{
    let b = snapshot_bytes(s);
    let f = frame_of(b);
    assert(b.len() == files_start(s) + 29 * s.files@.len() && b.subrange(
        32,
        32 + s.label_bytes().len() as int,
    ) == s.label_bytes()) by {
        lemma_header_numbers(s);
        lemma_parts(s);
        assert(b.len() == f.file_at(f.files as int));
    }
    assert(header_failure(b) is None && f.label_len == s.label_bytes().len() && f.files
        == s.files@.len() && f.dirs == s.dirs@.len() && f.chunks == s.store.chunks@.len()
        && f.indices == s.store.indices@.len()) by {
        lemma_header_numbers(s);
    }
    assert(b.take(8) == magic());
}

/// What the stored form says of a file, in twenty-nine bytes: its size, its
/// modification time, whether it is binary, where its name starts, its directory,
/// and where its path is found.
pub proof fn law_stored_file(s: LayerSnapshot, i: int, at: int)
    requires
        s.wf(),
        s.label_bytes().len() <= u16::MAX,
        0 <= i < s.files@.len(),
        at == files_start(s) + 29 * i,
    ensures
        ({
            let b = snapshot_bytes(s);
            let f = s.files@[i];
            &&& bytes::le_value(b.subrange(at, at + 8)) == f.size
            &&& bytes::le_value(b.subrange(at + 8, at + 8 + 8)) == f.modified
            &&& (bytes::le_value(b.subrange(at + 16, at + 16 + 1)) != 0) == f.binary()
            &&& bytes::le_value(b.subrange(at + 17, at + 17 + 2)) == f.path.filename_offset
            &&& bytes::le_value(b.subrange(at + 19, at + 19 + 4)) == f.parent_dir_index
            &&& bytes::le_value(b.subrange(at + 23, at + 23 + 4)) == f.path.index_offset
            &&& bytes::le_value(b.subrange(at + 27, at + 27 + 2)) == f.path.byte_len
        }),
{
    let b = snapshot_bytes(s);
    let r = file_record(s.files@[i]);
    assert(at + 29 <= b.len() && b.subrange(at, at + 29) == r) by {
        lemma_header_numbers(s);
        lemma_parts(s);
        assert(frame_of(b).file_at(i) == at);
    }
    lemma_file_numbers(b, at, s.files@[i]);
}

proof fn lemma_file_numbers(b: Seq<u8>, at: int, f: FileItem)
    requires
        0 <= at,
        at + 29 <= b.len(),
        b.subrange(at, at + 29) == file_record(f),
    ensures
        number_at(b, at, 8) == f.size,
        number_at(b, at + 8, 8) == f.modified,
        (number_at(b, at + 16, 1) != 0) == f.binary(),
        number_at(b, at + 17, 2) == f.path.filename_offset,
        number_at(b, at + 19, 4) == f.parent_dir_index,
        number_at(b, at + 23, 4) == f.path.index_offset,
        number_at(b, at + 27, 2) == f.path.byte_len,
{
    let r = file_record(f);
    bytes::lemma_le_limits();
    lemma_file_record(f);
    lemma_stored_number(b, at, r, 0, 8, f.size as nat);
    lemma_stored_number(b, at, r, 8, 8, f.modified as nat);
    lemma_stored_number(b, at, r, 16, 1, binary_code(f));
    lemma_stored_number(b, at, r, 17, 2, f.path.filename_offset as nat);
    lemma_stored_number(b, at, r, 19, 4, f.parent_dir_index as nat);
    lemma_stored_number(b, at, r, 23, 4, f.path.index_offset as nat);
    lemma_stored_number(b, at, r, 27, 2, f.path.byte_len as nat);
}

/// A stored snapshot loads, and what is loaded agrees with it on its label,
/// layout, arena, directories and files. (A label longer than 65,535 bytes does
/// not fit the header.)
pub proof fn law_snapshot_round_trip(s: LayerSnapshot, back: LayerSnapshot)
    requires
        s.wf(),
        s.label_bytes().len() <= u16::MAX,
    ensures
        failure(snapshot_bytes(s)) is None,
        decodes(snapshot_bytes(s), back) ==> same_stored(back, s),
{
    let b = snapshot_bytes(s);
    let f = frame_of(b);
    lemma_header_numbers(s);
    lemma_parts(s);
    lemma_stored_tables(s);
    assert forall|k: int| 0 <= k < f.dirs implies #[trigger] dir_failure(b, f, k) is None by {
        lemma_stored_dir(b, f, s.store, k, s.dirs@[k]);
    }
    lemma_dirs_pass(b, f, 0);
    assert forall|k: int| 0 <= k < f.files implies #[trigger] file_failure(b, f, k) is None by {
        lemma_stored_file(b, f, s.store, k, s.files@[k]);
    }
    lemma_files_pass(b, f, 0);
    if decodes(b, back) {
        assert(back.store.chunks@ =~= s.store.chunks@) by {
            assert forall|i: int| 0 <= i < f.chunks implies back.store.chunks@[i]
                == s.store.chunks@[i] by {
                assert(back.store.chunks@[i]@ == s.store.chunks@[i]@);
                assert(back.store.chunks@[i] =~= s.store.chunks@[i]);
            }
        }
        assert(back.store.indices@ =~= s.store.indices@);
        assert(back.label_bytes() =~= s.label_bytes());
        assert forall|i: int| 0 <= i < back.dirs@.len() implies (#[trigger] back.dirs@[i]).path == (
        #[trigger] s.dirs@[i]).path by {
            lemma_stored_dir(b, f, s.store, i, s.dirs@[i]);
            assert(decodes_dir(b, f, i, back.dirs@[i]));
        }
        assert forall|i: int| 0 <= i < back.files@.len() implies same_stored_file(
            #[trigger] back.files@[i],
            #[trigger] s.files@[i],
        ) by {
            lemma_stored_file(b, f, s.store, i, s.files@[i]);
            assert(decodes_file(b, f, i, back.files@[i]));
        }
    }
}

} // verus!
