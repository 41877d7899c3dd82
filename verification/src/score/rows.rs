//! The rows that a search looks at.

use crate::score::context::ScoringContext;
use crate::simd_path::ArenaPtr;
use crate::types;
use crate::types::FileItem;
use vstd::prelude::*;

verus! {

/// Files to search: a whole slice, or some of its rows.
pub enum FileItems<'a> {
    All(&'a [FileItem]),
    Filtered(Vec<&'a FileItem>),
}

impl<'a> FileItems<'a> {
    /// The rows, in order.
    pub open spec fn rows(&self) -> Seq<&'a FileItem> {
        match self {
            FileItems::All(files) => Seq::new(files@.len(), |i: int| &files@[i]),
            FileItems::Filtered(files) => files@,
        }
    }

    pub fn len(&self) -> (r: usize)
        ensures
            r == self.rows().len(),
    {
        match self {
            FileItems::All(files) => files.len(),
            FileItems::Filtered(files) => files.len(),
        }
    }

    pub fn index(&self, index: usize) -> (r: &'a FileItem)
        requires
            index < self.rows().len(),
        ensures
            r == self.rows()[index as int],
    {
        match self {
            FileItems::All(files) => &files[index],
            FileItems::Filtered(files) => files[index],
        }
    }
}

/// `p` can be read from the arena.
pub open spec fn readable(arena: ArenaPtr<'_>, file: FileItem) -> bool {
    arena.store matches Some(store) && store.wf() && store.names_path(file.path)
}

/// The relative path of the file.
pub open spec fn path_in(arena: ArenaPtr<'_>, file: FileItem) -> Seq<u8> {
    arena.store->0.path(file.path)
}

/// Reads the relative path of the file.
pub fn read_file_path(arena: ArenaPtr<'_>, file: &FileItem) -> (r: Vec<u8>)
    requires
        readable(arena, *file),
    ensures
        r@ == path_in(arena, *file),
{
    match arena.store {
        Some(store) => file.path.read(store),
        None => Vec::new(),
    }
}

/// Reads the relative path of the file, as text.
pub fn read_file_text(arena: ArenaPtr<'_>, file: &FileItem) -> (r: String)
    requires
        readable(arena, *file),
    ensures
        vstd::utf8::encode_utf8(r@) == path_in(arena, *file),
{
    types::text_of(read_file_path(arena, file))
}

/// The rows of `files` that are marked, from place `at` of `marks` on.
pub open spec fn marked_rows<'a>(
    files: Seq<FileItem>,
    marks: Seq<bool>,
    at: int,
    n: int,
) -> Seq<&'a FileItem>
    decreases n,
{
    if n <= 0 {
        Seq::empty()
    } else if marks[at + n - 1] {
        marked_rows(files, marks, at, n - 1).push(&files[n - 1])
    } else {
        marked_rows(files, marks, at, n - 1)
    }
}

/// The rows of `files` that meet the constraints of the query. They are the
/// rows from place `at` of the table on.
pub open spec fn kept_rows<'a>(
    files: Seq<FileItem>,
    context: ScoringContext<'_>,
    at: int,
) -> Seq<&'a FileItem> {
    match context.kept {
        None => Seq::new(files.len(), |i: int| &files[i]),
        Some(marks) => marked_rows(files, marks@, at, files.len() as int),
    }
}

/// The constraints speak of the rows of the table up to `len`.
pub open spec fn constrains(context: ScoringContext<'_>, len: int) -> bool {
    context.kept matches Some(marks) ==> len <= marks@.len()
}

/// The files that meet the constraints of the query; `None` when they exclude
/// every file.
pub fn filter_by_constraints<'a>(
    files: &'a [FileItem],
    context: &ScoringContext<'_>,
    at: usize,
) -> (r: Option<FileItems<'a>>)
    requires
        constrains(*context, at + files@.len()),
    ensures
        match r {
            Some(items) => items.rows() == kept_rows(files@, *context, at as int),
            None => context.kept is Some && kept_rows(files@, *context, at as int).len() == 0,
        },
{
    let marks = match context.kept {
        None => {
            let all = FileItems::All(files);
            assert(all.rows() =~= kept_rows(files@, *context, at as int));
            return Some(all);
        },
        Some(marks) => marks,
    };
    let count: usize = marks.len();
    let mut filtered: Vec<&'a FileItem> = Vec::new();
    let mut i: usize = 0;
    while i < files.len()
        invariant
            i <= files@.len(),
            at + files@.len() <= marks@.len() == count,
            filtered@ == marked_rows(files@, marks@, at as int, i as int),
        decreases files@.len() - i,
    {
        if marks[at + i] {
            filtered.push(&files[i]);
        }
        i += 1;
    }
    if filtered.len() > 0 {
        Some(FileItems::Filtered(filtered))
    } else {
        None
    }
}

/// The rows that are not deleted, among the first `n`.
pub open spec fn live_rows<'a>(rows: Seq<&'a FileItem>, n: int) -> Seq<&'a FileItem>
    decreases n,
{
    if n <= 0 {
        Seq::empty()
    } else if rows[n - 1].deleted() {
        live_rows(rows, n - 1)
    } else {
        live_rows(rows, n - 1).push(rows[n - 1])
    }
}

pub proof fn lemma_live_rows<'a>(rows: Seq<&'a FileItem>, n: int)
    requires
        0 <= n <= rows.len(),
    ensures
        live_rows(rows, n).len() <= n,
        forall|i: int|
            0 <= i < live_rows(rows, n).len() ==> rows.contains(#[trigger] live_rows(rows, n)[i])
                && !live_rows(rows, n)[i].deleted(),
    decreases n,
{
    if n > 0 {
        lemma_live_rows(rows, n - 1);
        assert(rows.contains(rows[n - 1]));
    }
}

pub proof fn lemma_marked_rows<'a>(files: Seq<FileItem>, marks: Seq<bool>, at: int, n: int)
    requires
        0 <= n <= files.len(),
    ensures
        marked_rows(files, marks, at, n).len() <= n,
        forall|i: int|
            0 <= i < marked_rows(files, marks, at, n).len() ==> files.contains(
                *#[trigger] marked_rows(files, marks, at, n)[i],
            ),
    decreases n,
{
    if n > 0 {
        lemma_marked_rows(files, marks, at, n - 1);
        assert(files.contains(files[n - 1]));
    }
}

/// The rows that are kept are rows of the slice.
pub proof fn lemma_kept_rows<'a>(files: Seq<FileItem>, context: ScoringContext<'_>, at: int)
    ensures
        kept_rows(files, context, at).len() <= files.len(),
        forall|i: int|
            0 <= i < kept_rows(files, context, at).len() ==> files.contains(
                *#[trigger] kept_rows(files, context, at)[i],
            ),
{
    match context.kept {
        None => {
            let rows = kept_rows(files, context, at);
            assert forall|i: int| 0 <= i < rows.len() implies files.contains(*#[trigger] rows[i]) by {
                assert(files[i] == *rows[i]);
            }
        },
        Some(marks) => {
            lemma_marked_rows(files, marks@, at, files.len() as int);
        },
    }
}

} // verus!
