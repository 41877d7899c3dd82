//! Rows of the index: files and directories.

use crate::bytes;
use crate::simd_path::{ChunkedPathStore, ChunkedString};
use vstd::prelude::*;

verus! {

/// Layer ids occupy three flag bits, starting here.
pub const LAYER_SHIFT: u8 = 3;

const DELETED_BIT: u8 = 1;

const BINARY_BIT: u8 = 2;

pub open spec fn flag_deleted(flags: u8) -> bool {
    flags & 1 == 1
}

pub open spec fn flag_binary(flags: u8) -> bool {
    flags & 2 == 2
}

pub open spec fn flag_layer(flags: u8) -> u8 {
    (flags >> 3) & 7
}

fn with_deleted(flags: u8, deleted: bool) -> (r: u8)
    ensures
        flag_deleted(r) == deleted,
        flag_binary(r) == flag_binary(flags),
        flag_layer(r) == flag_layer(flags),
{
    assert((flags | 1) & 1 == 1 && (flags | 1) & 2 == flags & 2 && ((flags | 1) >> 3) & 7 == (flags
        >> 3) & 7) by (bit_vector);
    assert((flags & 0xfe) & 1 == 0 && (flags & 0xfe) & 2 == flags & 2 && ((flags & 0xfe) >> 3) & 7
        == (flags >> 3) & 7) by (bit_vector);
    if deleted {
        flags | DELETED_BIT
    } else {
        flags & 0xfe
    }
}

fn with_binary(flags: u8, binary: bool) -> (r: u8)
    ensures
        flag_binary(r) == binary,
        flag_deleted(r) == flag_deleted(flags),
        flag_layer(r) == flag_layer(flags),
{
    assert((flags | 2) & 2 == 2 && (flags | 2) & 1 == flags & 1 && ((flags | 2) >> 3) & 7 == (flags
        >> 3) & 7) by (bit_vector);
    assert((flags & 0xfd) & 2 == 0 && (flags & 0xfd) & 1 == flags & 1 && ((flags & 0xfd) >> 3) & 7
        == (flags >> 3) & 7) by (bit_vector);
    if binary {
        flags | BINARY_BIT
    } else {
        flags & 0xfd
    }
}

fn with_layer(flags: u8, layer: u8) -> (r: u8)
    requires
        layer < 8,
    ensures
        flag_layer(r) == layer,
        flag_deleted(r) == flag_deleted(flags),
        flag_binary(r) == flag_binary(flags),
{
    assert((((flags & 0xc7) | (layer << 3)) >> 3) & 7 == layer && ((flags & 0xc7) | (layer << 3))
        & 1 == flags & 1 && ((flags & 0xc7) | (layer << 3)) & 2 == flags & 2) by (bit_vector)
        requires
            layer < 8,
    ;
    (flags & 0xc7) | (layer << LAYER_SHIFT)
}

/// One file of the index.
#[derive(Clone, Copy, Debug)]
pub struct FileItem {
    pub path: ChunkedString,
    pub size: u64,
    /// Unix seconds.
    pub modified: u64,
    /// Index of the directory that holds the file; `u32::MAX` while unknown.
    pub parent_dir_index: u32,
    pub access_frecency_score: i16,
    pub modification_frecency_score: i16,
    pub git_recency_score: i16,
    /// The file is modified in its git work tree.
    pub git_modified: bool,
    pub flags: u8,
}

impl FileItem {
    pub open spec fn deleted(self) -> bool {
        flag_deleted(self.flags)
    }

    pub open spec fn binary(self) -> bool {
        flag_binary(self.flags)
    }

    pub open spec fn layer(self) -> u8 {
        flag_layer(self.flags)
    }

    /// Everything but the flags equals `other`.
    pub open spec fn same_but_flags(self, other: FileItem) -> bool {
        self == (FileItem { flags: self.flags, ..other })
    }

    pub fn new_raw(
        filename_offset: u16,
        size: u64,
        modified: u64,
        git_modified: bool,
        binary: bool,
    ) -> (r: Self)
        ensures
            r.path == (ChunkedString { index_offset: 0, byte_len: 0, filename_offset }),
            r.size == size,
            r.modified == modified,
            r.parent_dir_index == u32::MAX,
            r.access_frecency_score == 0,
            r.modification_frecency_score == 0,
            r.git_recency_score == 0,
            r.git_modified == git_modified,
            r.binary() == binary,
            !r.deleted(),
            r.layer() == 0,
    {
        assert(0u8 & 1 == 0 && (0u8 >> 3) & 7 == 0) by (bit_vector);
        FileItem {
            path: ChunkedString::new(0, 0, filename_offset),
            size,
            modified,
            parent_dir_index: u32::MAX,
            access_frecency_score: 0,
            modification_frecency_score: 0,
            git_recency_score: 0,
            git_modified,
            flags: with_binary(0, binary),
        }
    }

    pub fn is_deleted(&self) -> (r: bool)
        ensures
            r == self.deleted(),
    {
        self.flags & DELETED_BIT == DELETED_BIT
    }

    pub fn is_binary(&self) -> (r: bool)
        ensures
            r == self.binary(),
    {
        self.flags & BINARY_BIT == BINARY_BIT
    }

    pub fn layer_id(&self) -> (r: u8)
        ensures
            r == self.layer(),
            r < 8,
    {
        let flags: u8 = self.flags;
        assert((flags >> 3) & 7 < 8) by (bit_vector);
        (flags >> LAYER_SHIFT) & 7
    }

    /// The file lives in an overlay, not in the base scan.
    pub fn is_overflow(&self) -> (r: bool)
        ensures
            r == (self.layer() != 0),
    {
        self.layer_id() != 0
    }

    pub fn set_deleted(&mut self, deleted: bool)
        ensures
            final(self).same_but_flags(*old(self)),
            final(self).deleted() == deleted,
            final(self).binary() == old(self).binary(),
            final(self).layer() == old(self).layer(),
    {
        self.flags = with_deleted(self.flags, deleted);
    }

    pub fn set_layer(&mut self, layer: u8)
        requires
            layer < 8,
        ensures
            final(self).same_but_flags(*old(self)),
            final(self).layer() == layer,
            final(self).deleted() == old(self).deleted(),
            final(self).binary() == old(self).binary(),
    {
        self.flags = with_layer(self.flags, layer);
    }

    pub fn set_path(&mut self, path: ChunkedString)
        ensures
            *final(self) == (FileItem { path, ..*old(self) }),
    {
        self.path = path;
    }

    pub open spec fn total_frecency(self) -> int {
        self.access_frecency_score + self.modification_frecency_score
    }

    pub fn total_frecency_score(&self) -> (r: i32)
        ensures
            r == self.total_frecency(),
    {
        self.access_frecency_score as i32 + self.modification_frecency_score as i32
    }

    /// The relative path, read from `arena`.
    pub fn relative_path(&self, arena: &ChunkedPathStore) -> (r: String)
        requires
            arena.wf(),
            arena.names_path(self.path),
        ensures
            vstd::utf8::encode_utf8(r@) == arena.path(self.path),
    {
        text_of(self.path.read(arena))
    }
}

/// One directory of the index. Its path ends in `/`, or is empty for the root.
#[derive(Clone, Copy, Debug)]
pub struct DirItem {
    pub path: ChunkedString,
    pub max_access_frecency: i32,
    pub flags: u8,
}

impl DirItem {
    pub open spec fn deleted(self) -> bool {
        flag_deleted(self.flags)
    }

    pub open spec fn layer(self) -> u8 {
        flag_layer(self.flags)
    }

    pub open spec fn same_but_flags(self, other: DirItem) -> bool {
        self == (DirItem { flags: self.flags, ..other })
    }

    /// A directory whose last segment starts at `last_segment_offset`.
    pub fn new(path: ChunkedString, last_segment_offset: u16) -> (r: Self)
        ensures
            r.path == (ChunkedString { filename_offset: last_segment_offset, ..path }),
            r.max_access_frecency == 0,
            !r.deleted(),
            r.layer() == 0,
    {
        assert(0u8 & 1 == 0 && (0u8 >> 3) & 7 == 0) by (bit_vector);
        DirItem {
            path: ChunkedString {
                index_offset: path.index_offset,
                byte_len: path.byte_len,
                filename_offset: last_segment_offset,
            },
            max_access_frecency: 0,
            flags: 0,
        }
    }

    pub fn is_deleted(&self) -> (r: bool)
        ensures
            r == self.deleted(),
    {
        self.flags & DELETED_BIT == DELETED_BIT
    }

    pub fn layer_id(&self) -> (r: u8)
        ensures
            r == self.layer(),
            r < 8,
    {
        let flags: u8 = self.flags;
        assert((flags >> 3) & 7 < 8) by (bit_vector);
        (flags >> LAYER_SHIFT) & 7
    }

    pub fn is_overflow(&self) -> (r: bool)
        ensures
            r == (self.layer() != 0),
    {
        self.layer_id() != 0
    }

    pub fn set_deleted(&mut self, deleted: bool)
        ensures
            final(self).same_but_flags(*old(self)),
            final(self).deleted() == deleted,
            final(self).layer() == old(self).layer(),
    {
        self.flags = with_deleted(self.flags, deleted);
    }

    pub fn set_layer(&mut self, layer: u8)
        requires
            layer < 8,
        ensures
            final(self).same_but_flags(*old(self)),
            final(self).layer() == layer,
            final(self).deleted() == old(self).deleted(),
    {
        self.flags = with_layer(self.flags, layer);
    }

    pub fn last_segment_offset(&self) -> (r: u16)
        ensures
            r == self.path.filename_offset,
    {
        self.path.filename_offset
    }

    pub fn max_access_frecency(&self) -> (r: i32)
        ensures
            r == self.max_access_frecency,
    {
        self.max_access_frecency
    }

    pub fn relative_path(&self, arena: &ChunkedPathStore) -> (r: String)
        requires
            arena.wf(),
            arena.names_path(self.path),
        ensures
            vstd::utf8::encode_utf8(r@) == arena.path(self.path),
    {
        text_of(self.path.read(arena))
    }
}

/// A path cut in front of its last segment.
pub struct PathKey {
    pub dir: Seq<u8>,
    pub name: Seq<u8>,
}

pub open spec fn path_key(path: Seq<u8>, filename_offset: int) -> PathKey {
    PathKey { dir: path.take(filename_offset), name: path.skip(filename_offset) }
}

/// `(dir, name)` order shared by the base scan, sealed layers and lookups.
pub open spec fn key_le(a: PathKey, b: PathKey) -> bool {
    if a.dir == b.dir {
        bytes::lex_le(a.name, b.name)
    } else {
        bytes::lex_le(a.dir, b.dir)
    }
}

pub proof fn lemma_key_total(a: PathKey, b: PathKey)
    ensures
        key_le(a, b) || key_le(b, a),
{
    bytes::lemma_lex_total(a.dir, b.dir);
    bytes::lemma_lex_total(a.name, b.name);
}

pub proof fn lemma_key_transitive(a: PathKey, b: PathKey, c: PathKey)
    requires
        key_le(a, b),
        key_le(b, c),
    ensures
        key_le(a, c),
{
    if a.dir == b.dir && b.dir == c.dir {
        bytes::lemma_lex_transitive(a.name, b.name, c.name);
    } else if a.dir != b.dir && b.dir != c.dir {
        bytes::lemma_lex_transitive(a.dir, b.dir, c.dir);
        if a.dir == c.dir {
            bytes::lemma_lex_antisymmetric(a.dir, b.dir);
        }
    }
}

pub proof fn lemma_key_antisymmetric(a: PathKey, b: PathKey)
    requires
        key_le(a, b),
        key_le(b, a),
    ensures
        a.dir == b.dir,
        a.name == b.name,
{
    if a.dir == b.dir {
        bytes::lemma_lex_antisymmetric(a.name, b.name);
    } else {
        bytes::lemma_lex_antisymmetric(a.dir, b.dir);
    }
}

/// Where path `a` stands towards path `b` in `(dir, name)` order.
pub fn path_order(a: &[u8], a_offset: usize, b: &[u8], b_offset: usize) -> (r: bytes::Rank)
    requires
        a_offset <= a@.len(),
        b_offset <= b@.len(),
    ensures
        r == bytes::Rank::Before <==> !key_le(
            path_key(b@, b_offset as int),
            path_key(a@, a_offset as int),
        ),
        r == bytes::Rank::After <==> !key_le(
            path_key(a@, a_offset as int),
            path_key(b@, b_offset as int),
        ),
        r == bytes::Rank::Level ==> a@ == b@,
{
    let ghost ka = path_key(a@, a_offset as int);
    let ghost kb = path_key(b@, b_offset as int);
    let dir_a = vstd::slice::slice_subrange(a, 0, a_offset);
    let dir_b = vstd::slice::slice_subrange(b, 0, b_offset);
    assert(dir_a@ =~= ka.dir);
    assert(dir_b@ =~= kb.dir);
    proof {
        lemma_key_total(ka, kb);
        bytes::lemma_lex_reflexive(ka.name);
        if key_le(ka, kb) && key_le(kb, ka) {
            lemma_key_antisymmetric(ka, kb);
        }
        assert(a@ =~= ka.dir + ka.name);
        assert(b@ =~= kb.dir + kb.name);
    }
    let by_dir = bytes::lex_order(dir_a, dir_b);
    match by_dir {
        bytes::Rank::Level => {
            let name_a = vstd::slice::slice_subrange(a, a_offset, a.len());
            let name_b = vstd::slice::slice_subrange(b, b_offset, b.len());
            assert(name_a@ =~= ka.name);
            assert(name_b@ =~= kb.name);
            bytes::lex_order(name_a, name_b)
        },
        bytes::Rank::Before => bytes::Rank::Before,
        bytes::Rank::After => bytes::Rank::After,
    }
}

/// The text that `bytes` encode, where they are UTF-8: `std::str::from_utf8`.
#[verifier::external_body]
pub(crate) fn utf8_text(bytes: &[u8]) -> (r: Option<&str>)
    ensures
        r is Some <==> vstd::utf8::valid_utf8(bytes@),
        r matches Some(text) ==> vstd::utf8::encode_utf8(text@) == bytes@,
{
    std::str::from_utf8(bytes).ok()
}

/// The text of bytes that are known to be UTF-8.
pub fn text_of(bytes: Vec<u8>) -> (r: String)
    requires
        vstd::utf8::valid_utf8(bytes@),
    ensures
        vstd::utf8::encode_utf8(r@) == bytes@,
{
    match utf8_text(bytes.as_slice()) {
        Some(text) => text.to_owned(),
        None => String::new(),
    }
}

} // verus!
