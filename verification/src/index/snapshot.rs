//! Building a layer off-line from a list of files.

use crate::bytes;
use crate::index::codec::{LayerSnapshot, SnapshotLayout};
use crate::simd_path;
use crate::simd_path::PATH_BUF_SIZE;
use crate::sorting;
use crate::types;
use vstd::prelude::*;

verus! {

/// One file handed to [`LayerBuilder`] or `FilePicker::add_entries`. Paths are
/// relative to the picker base and use `/` separators.
#[derive(Clone, Copy, Debug)]
pub struct IndexEntry<'a> {
    pub relative_path: &'a str,
    pub size: u64,
    /// Unix seconds. `0` when unknown.
    pub modified: u64,
    /// `None` classifies by extension.
    pub binary: Option<bool>,
}

/// What the index keeps of a file that was handed in.
pub struct EntryRecord {
    pub path: Seq<u8>,
    pub size: u64,
    pub modified: u64,
    pub binary: bool,
}

/// Extensions of files that hold no text.
pub open spec fn binary_extension(ext: Seq<u8>) -> bool {
    ||| ext == vstd::utf8::encode_utf8("png"@)
    ||| ext == vstd::utf8::encode_utf8("jpg"@)
    ||| ext == vstd::utf8::encode_utf8("jpeg"@)
    ||| ext == vstd::utf8::encode_utf8("gif"@)
    ||| ext == vstd::utf8::encode_utf8("ico"@)
    ||| ext == vstd::utf8::encode_utf8("webp"@)
    ||| ext == vstd::utf8::encode_utf8("pdf"@)
    ||| ext == vstd::utf8::encode_utf8("zip"@)
    ||| ext == vstd::utf8::encode_utf8("gz"@)
    ||| ext == vstd::utf8::encode_utf8("tar"@)
    ||| ext == vstd::utf8::encode_utf8("exe"@)
    ||| ext == vstd::utf8::encode_utf8("dll"@)
    ||| ext == vstd::utf8::encode_utf8("so"@)
    ||| ext == vstd::utf8::encode_utf8("o"@)
    ||| ext == vstd::utf8::encode_utf8("a"@)
    ||| ext == vstd::utf8::encode_utf8("woff"@)
    ||| ext == vstd::utf8::encode_utf8("woff2"@)
    ||| ext == vstd::utf8::encode_utf8("ttf"@)
    ||| ext == vstd::utf8::encode_utf8("mp3"@)
    ||| ext == vstd::utf8::encode_utf8("mp4"@)
}

/// Position just after the last `.` of `s`, or 0 where there is none.
pub open spec fn after_last_dot(s: Seq<u8>) -> int
    decreases s.len(),
{
    if s.len() == 0 {
        0
    } else if s.last() == 0x2e {
        s.len() as int
    } else {
        after_last_dot(s.drop_last())
    }
}

/// The name has an extension, and it is that of a binary file.
pub open spec fn binary_name(name: Seq<u8>) -> bool {
    after_last_dot(name) > 0 && binary_extension(name.skip(after_last_dot(name)))
}

fn is_binary_extension(ext: &[u8]) -> (r: bool)
    ensures
        r == binary_extension(ext@),
{
    bytes::same_bytes(ext, "png".as_bytes()) || bytes::same_bytes(ext, "jpg".as_bytes())
        || bytes::same_bytes(ext, "jpeg".as_bytes()) || bytes::same_bytes(ext, "gif".as_bytes())
        || bytes::same_bytes(ext, "ico".as_bytes()) || bytes::same_bytes(ext, "webp".as_bytes())
        || bytes::same_bytes(ext, "pdf".as_bytes()) || bytes::same_bytes(ext, "zip".as_bytes())
        || bytes::same_bytes(ext, "gz".as_bytes()) || bytes::same_bytes(ext, "tar".as_bytes())
        || bytes::same_bytes(ext, "exe".as_bytes()) || bytes::same_bytes(ext, "dll".as_bytes())
        || bytes::same_bytes(ext, "so".as_bytes()) || bytes::same_bytes(ext, "o".as_bytes())
        || bytes::same_bytes(ext, "a".as_bytes()) || bytes::same_bytes(ext, "woff".as_bytes())
        || bytes::same_bytes(ext, "woff2".as_bytes()) || bytes::same_bytes(ext, "ttf".as_bytes())
        || bytes::same_bytes(ext, "mp3".as_bytes()) || bytes::same_bytes(ext, "mp4".as_bytes())
}

/// Whether a file of this name holds no text, judged by its extension.
pub fn is_known_binary_extension_basename(name: &[u8]) -> (r: bool)
    ensures
        r == binary_name(name@),
{
    let mut i: usize = name.len();
    assert(name@.take(i as int) =~= name@);
    while i > 0 && name[i - 1] != 0x2e
        invariant
            i <= name@.len(),
            after_last_dot(name@) == after_last_dot(name@.take(i as int)),
        decreases i,
    {
        assert(name@.take(i as int).drop_last() =~= name@.take(i - 1));
        i -= 1;
    }
    assert(after_last_dot(name@) == i);
    if i == 0 {
        false
    } else {
        let ext = vstd::slice::slice_subrange(name, i, name.len());
        assert(ext@ =~= name@.skip(i as int));
        is_binary_extension(ext)
    }
}

/// A path without the `./` in front of it.
pub open spec fn without_dot_slash(s: Seq<u8>) -> Seq<u8>
    decreases s.len(),
{
    if s.len() >= 2 && s[0] == 0x2e && s[1] == 0x2f {
        without_dot_slash(s.skip(2))
    } else {
        s
    }
}

/// The relative path that `raw` stands for; `None` where it is empty, absolute,
/// names a directory, or is too long for the index.
pub open spec fn normalized(raw: Seq<u8>) -> Option<Seq<u8>> {
    let path = without_dot_slash(raw);
    if path.len() == 0 || path[0] == 0x2f || path.last() == 0x2f || path.len() >= PATH_BUF_SIZE {
        None
    } else {
        Some(path)
    }
}

/// A path that the index can hold.
pub open spec fn indexable_path(path: Seq<u8>) -> bool {
    &&& 0 < path.len() < PATH_BUF_SIZE
    &&& path[0] != 0x2f
    &&& path.last() != 0x2f
    &&& vstd::utf8::valid_utf8(path)
}

proof fn lemma_text_behind_dot_slash(s: Seq<u8>)
    requires
        vstd::utf8::valid_utf8(s),
        s.len() >= 2,
        s[0] == 0x2e,
        s[1] == 0x2f,
    ensures
        vstd::utf8::valid_utf8(s.skip(2)),
{
    bytes::lemma_cut_text(s, 2);
}

/// Reads a path as [`normalized`] says.
pub fn normalize_relative_path(raw: &str) -> (r: Option<Vec<u8>>)
    ensures
        match r {
            Some(path) => normalized(vstd::utf8::encode_utf8(raw@)) == Some(path@)
                && indexable_path(path@),
            None => normalized(vstd::utf8::encode_utf8(raw@)) is None,
        },
{
    let text = raw.as_bytes();
    proof {
        vstd::utf8::encode_utf8_valid_utf8(raw@);
    }
    let mut start: usize = 0;
    assert(text@.skip(0) =~= text@);
    while text.len() - start >= 2 && text[start] == 0x2e && text[start + 1] == 0x2f
        invariant
            start <= text@.len(),
            without_dot_slash(text@) == without_dot_slash(text@.skip(start as int)),
            vstd::utf8::valid_utf8(text@.skip(start as int)),
        decreases text@.len() - start,
    {
        proof {
            lemma_text_behind_dot_slash(text@.skip(start as int));
            assert(text@.skip(start as int).skip(2) =~= text@.skip(start + 2));
        }
        start += 2;
    }
    let path = vstd::slice::slice_subrange(text, start, text.len());
    assert(path@ =~= text@.skip(start as int));
    assert(path@ == without_dot_slash(text@));
    if path.len() == 0 || path[0] == 0x2f || path[path.len() - 1] == 0x2f || path.len()
        >= PATH_BUF_SIZE {
        None
    } else {
        Some(vstd::slice::slice_to_vec(path))
    }
}

/// Where the last segment of a path starts.
pub fn filename_offset(path: &[u8]) -> (r: usize)
    ensures
        r == bytes::after_last_slash(path@),
        r <= path@.len(),
{
    assert(path@.take(path@.len() as int) =~= path@);
    bytes::slash_before(path, path.len())
}

/// `s` without the `/` at its end.
pub open spec fn trimmed(s: Seq<u8>) -> Seq<u8>
    decreases s.len(),
{
    if s.len() > 0 && s.last() == 0x2f {
        trimmed(s.drop_last())
    } else {
        s
    }
}

/// Where the last segment of a directory path starts.
pub open spec fn last_segment(dir: Seq<u8>) -> int {
    bytes::after_last_slash(trimmed(dir))
}

pub fn last_segment_offset(dir: &[u8]) -> (r: u16)
    requires
        dir@.len() < PATH_BUF_SIZE,
    ensures
        r == last_segment(dir@),
        bytes::is_cut(dir@, r as int),
{
    let mut end: usize = dir.len();
    assert(dir@.take(end as int) =~= dir@);
    while end > 0 && dir[end - 1] == 0x2f
        invariant
            end <= dir@.len(),
            trimmed(dir@) == trimmed(dir@.take(end as int)),
        decreases end,
    {
        assert(dir@.take(end as int).drop_last() =~= dir@.take(end - 1));
        end -= 1;
    }
    assert(trimmed(dir@) == dir@.take(end as int));
    let offset: usize = bytes::slash_before(dir, end);
    proof {
        bytes::lemma_after_last_slash(dir@.take(end as int));
    }
    offset as u16
}

impl<'a> IndexEntry<'a> {
    pub open spec fn raw(&self) -> Seq<u8> {
        vstd::utf8::encode_utf8(self.relative_path@)
    }

    pub open spec fn binary_by_name(&self) -> bool {
        match self.binary {
            Some(binary) => binary,
            None => binary_name(self.raw().skip(bytes::after_last_slash(self.raw()))),
        }
    }

    /// What is kept of the entry; `None` where its path is refused.
    pub open spec fn record(&self) -> Option<EntryRecord> {
        match normalized(self.raw()) {
            Some(path) => Some(
                EntryRecord {
                    path,
                    size: self.size,
                    modified: self.modified,
                    binary: self.binary_by_name(),
                },
            ),
            None => None,
        }
    }

    pub fn new(relative_path: &'a str) -> (r: Self)
        ensures
            r == (IndexEntry { relative_path, size: 0, modified: 0, binary: None }),
    {
        IndexEntry { relative_path, size: 0, modified: 0, binary: None }
    }

    pub fn with_metadata(self, size: u64, modified: u64) -> (r: Self)
        ensures
            r == (IndexEntry { size, modified, ..self }),
    {
        IndexEntry { relative_path: self.relative_path, size, modified, binary: self.binary }
    }

    pub fn with_binary(self, binary: bool) -> (r: Self)
        ensures
            r == (IndexEntry { binary: Some(binary), ..self }),
    {
        IndexEntry {
            relative_path: self.relative_path,
            size: self.size,
            modified: self.modified,
            binary: Some(binary),
        }
    }

    pub fn is_binary(&self) -> (r: bool)
        ensures
            r == self.binary_by_name(),
    {
        match self.binary {
            Some(binary) => binary,
            None => {
                let raw = self.relative_path.as_bytes();
                let start: usize = filename_offset(raw);
                let name = vstd::slice::slice_subrange(raw, start, raw.len());
                assert(name@ =~= raw@.skip(start as int));
                is_known_binary_extension_basename(name)
            },
        }
    }
}

/// A file that waits for [`LayerBuilder::finish`].
pub struct PendingEntry {
    pub path: Vec<u8>,
    pub filename_offset: u16,
    pub size: u64,
    pub modified: u64,
    pub binary: bool,
}

impl PendingEntry {
    pub open spec fn wf(&self) -> bool {
        &&& indexable_path(self.path@)
        &&& self.filename_offset == bytes::after_last_slash(self.path@)
    }

    pub open spec fn record(&self) -> EntryRecord {
        EntryRecord {
            path: self.path@,
            size: self.size,
            modified: self.modified,
            binary: self.binary,
        }
    }

    pub open spec fn key(&self) -> types::PathKey {
        types::path_key(self.path@, self.filename_offset as int)
    }
}

/// Accumulates files, then freezes them into a [`LayerSnapshot`] whose paths
/// live in one deduplicated arena. Nothing touches the filesystem.
pub struct LayerBuilder {
    pub label: Option<String>,
    pub entries: Vec<PendingEntry>,
}

/// Index table entries that a path and its directories can take.
pub open spec fn table_cost(path: Seq<u8>) -> nat {
    simd_path::chunk_cost(path.len()) * (1 + bytes::slash_count(path, path.len() as int))
}

impl LayerBuilder {
    pub open spec fn wf(&self) -> bool {
        forall|i: int| 0 <= i < self.entries@.len() ==> (#[trigger] self.entries@[i]).wf()
    }

    pub open spec fn records(&self) -> Seq<EntryRecord> {
        Seq::new(self.entries@.len(), |i: int| self.entries@[i].record())
    }

    /// Upper bound on the index table of the finished layer.
    pub open spec fn table_bound(&self) -> nat {
        sorting::total(Seq::new(self.entries@.len(), |i: int| table_cost(self.entries@[i].path@)))
    }

    pub fn new(label: Option<&str>) -> (r: Self)
        ensures
            r.wf(),
            r.entries@.len() == 0,
            label matches Some(text) ==> r.label matches Some(kept) && kept@ == text@,
            label is None ==> r.label is None,
    {
        let label = match label {
            Some(text) => Some(text.to_owned()),
            None => None,
        };
        LayerBuilder { label, entries: Vec::new() }
    }

    pub fn with_capacity(label: Option<&str>, files: usize) -> (r: Self)
        ensures
            r.wf(),
            r.entries@.len() == 0,
            label matches Some(text) ==> r.label matches Some(kept) && kept@ == text@,
            label is None ==> r.label is None,
    {
        let label = match label {
            Some(text) => Some(text.to_owned()),
            None => None,
        };
        LayerBuilder { label, entries: Vec::with_capacity(files) }
    }

    /// `false` when the path is absolute, empty, or too long for the index.
    pub fn push(&mut self, entry: &IndexEntry<'_>) -> (r: bool)
        requires
            old(self).wf(),
        ensures
            final(self).wf(),
            final(self).label == old(self).label,
            r == (entry.record() is Some),
            r ==> final(self).records() == old(self).records().push(entry.record()->0),
            !r ==> final(self).entries@ == old(self).entries@,
    {
        let path = match normalize_relative_path(entry.relative_path) {
            Some(path) => path,
            None => {
                return false;
            },
        };
        let offset: u16 = filename_offset(path.as_slice()) as u16;
        let binary: bool = entry.is_binary();
        self.entries.push(
            PendingEntry {
                path,
                filename_offset: offset,
                size: entry.size,
                modified: entry.modified,
                binary,
            },
        );
        assert(self.records() =~= old(self).records().push(entry.record()->0));
        true
    }

    pub fn len(&self) -> (r: usize)
        ensures
            r == self.entries@.len(),
    {
        self.entries.len()
    }

    pub fn is_empty(&self) -> (r: bool)
        ensures
            r == (self.entries@.len() == 0),
    {
        self.entries.len() == 0
    }
}


impl LayerSnapshot {
    pub fn label(&self) -> (r: Option<&str>)
        ensures
            match (self.label, r) {
                (Some(label), Some(text)) => text@ == label@,
                (None, None) => true,
                _ => false,
            },
    {
        match &self.label {
            Some(label) => Some(label.as_str()),
            None => None,
        }
    }

    pub fn file_count(&self) -> (r: usize)
        ensures
            r == self.files@.len(),
    {
        self.files.len()
    }

    pub fn dir_count(&self) -> (r: usize)
        ensures
            r == self.dirs@.len(),
    {
        self.dirs.len()
    }

    pub fn arena_bytes(&self) -> (r: usize)
        requires
            self.store.byte_size() <= usize::MAX,
        ensures
            r == self.store.byte_size(),
    {
        self.store.heap_bytes()
    }

    pub fn layout(&self) -> (r: SnapshotLayout)
        ensures
            r == self.layout,
    {
        self.layout
    }

    /// The paths of the files, in their order.
    pub fn relative_paths(&self) -> (r: Vec<String>)
        requires
            self.wf(),
        ensures
            r@.len() == self.files@.len(),
            forall|i: int|
                0 <= i < r@.len() ==> vstd::utf8::encode_utf8((#[trigger] r@[i])@)
                    == self.file_text(i),
    {
        let mut out: Vec<String> = Vec::new();
        let mut i: usize = 0;
        while i < self.files.len()
            invariant
                self.wf(),
                i <= self.files@.len(),
                out@.len() == i,
                forall|k: int|
                    0 <= k < i ==> vstd::utf8::encode_utf8((#[trigger] out@[k])@)
                        == self.file_text(k),
            decreases self.files@.len() - i,
        {
            out.push(self.files[i].relative_path(&self.store));
            i += 1;
        }
        out
    }

    /// The paths of the directories, in their order.
    pub fn dir_paths(&self) -> (r: Vec<String>)
        requires
            self.wf(),
        ensures
            r@.len() == self.dirs@.len(),
            forall|i: int|
                0 <= i < r@.len() ==> vstd::utf8::encode_utf8((#[trigger] r@[i])@)
                    == self.dir_text(i),
    {
        let mut out: Vec<String> = Vec::new();
        let mut i: usize = 0;
        while i < self.dirs.len()
            invariant
                self.wf(),
                i <= self.dirs@.len(),
                out@.len() == i,
                forall|k: int|
                    0 <= k < i ==> vstd::utf8::encode_utf8((#[trigger] out@[k])@)
                        == self.dir_text(k),
            decreases self.dirs@.len() - i,
        {
            out.push(self.dirs[i].relative_path(&self.store));
            i += 1;
        }
        out
    }
}

} // verus!
