//! Lists of paths that come as one text, with sizes and times beside it.

use crate::bytes;
use crate::index::snapshot::IndexEntry;
use crate::types::{text_of, utf8_text};
use vstd::prelude::*;

verus! {

/// Ends a path.
pub const NEWLINE: u8 = 10;

/// A path of a list, with what stands at its place beside it.
#[derive(Clone, Debug)]
pub struct Listed {
    pub path: String,
    pub size: u64,
    pub modified: u64,
}

/// The paths are not UTF-8.
#[derive(Clone, Copy, Debug, PartialEq, Eq, Structural)]
pub struct NotUtf8;

/// The lines of the first `n` bytes; there is always a last one.
pub open spec fn lines_of(b: Seq<u8>, n: int) -> Seq<Seq<u8>>
    decreases n,
{
    if n <= 0 {
        seq![Seq::empty()]
    } else if b[n - 1] == NEWLINE {
        lines_of(b, n - 1).push(Seq::empty())
    } else {
        let before = lines_of(b, n - 1);
        before.drop_last().push(before.last().push(b[n - 1]))
    }
}

/// What stands at a place of a list; nothing counts as zero.
pub open spec fn field_at(values: Option<&[u64]>, i: int) -> u64 {
    match values {
        Some(values) => if i < values@.len() {
            values@[i]
        } else {
            0
        },
        None => 0,
    }
}

/// Which of the first `n` lines hold a path.
pub open spec fn filled_lines(lines: Seq<Seq<u8>>, n: int) -> Seq<int>
    decreases n,
{
    if n <= 0 {
        Seq::empty()
    } else if lines[n - 1].len() > 0 {
        filled_lines(lines, n - 1).push(n - 1)
    } else {
        filled_lines(lines, n - 1)
    }
}

/// `listed` holds line `i`, and what stands beside it.
pub open spec fn is_listed(
    listed: Listed,
    lines: Seq<Seq<u8>>,
    i: int,
    sizes: Option<&[u64]>,
    modified: Option<&[u64]>,
) -> bool {
    &&& vstd::utf8::encode_utf8(listed.path@) == lines[i]
    &&& listed.size == field_at(sizes, i)
    &&& listed.modified == field_at(modified, i)
}

/// `out` holds the first `n` lines that are not blank.
pub open spec fn lists(
    out: Seq<Listed>,
    lines: Seq<Seq<u8>>,
    n: int,
    sizes: Option<&[u64]>,
    modified: Option<&[u64]>,
) -> bool {
    let places = filled_lines(lines, n);
    &&& out.len() == places.len()
    &&& forall|k: int|
        0 <= k < out.len() ==> is_listed(#[trigger] out[k], lines, places[k], sizes, modified)
}

fn read_field(values: Option<&[u64]>, i: usize) -> (r: u64)
    ensures
        r == field_at(values, i as int),
{
    match values {
        Some(values) => if i < values.len() {
            values[i]
        } else {
            0
        },
        None => 0,
    }
}

/// In front of an ASCII byte of UTF-8 text a character ends.
proof fn lemma_boundary_before_ascii(s: Seq<u8>, i: int)
    requires
        vstd::utf8::valid_utf8(s),
        0 <= i < s.len(),
        s[i] < 0x80,
    ensures
        vstd::utf8::is_char_boundary(s, i),
    decreases s.len(),
{
    let n = vstd::utf8::length_of_first_scalar(s);
    let rest = vstd::utf8::pop_first_scalar(s);
    if i < n {
        assert(i == 0);
    } else {
        lemma_boundary_before_ascii(rest, i - n);
    }
}

/// A line of UTF-8 text is UTF-8 text, and so is what follows it.
proof fn lemma_line_valid(rest: Seq<u8>, i: int)
    requires
        vstd::utf8::valid_utf8(rest),
        0 <= i < rest.len(),
        rest[i] == NEWLINE,
    ensures
        vstd::utf8::valid_utf8(rest.take(i)),
        vstd::utf8::valid_utf8(rest.skip(i + 1)),
{
    lemma_boundary_before_ascii(rest, i);
    bytes::lemma_boundary_after_ascii(rest, i);
    vstd::utf8::valid_utf8_split(rest, i);
    vstd::utf8::valid_utf8_split(rest, i + 1);
    assert(rest.take(i) =~= rest.subrange(0, i));
    assert(rest.skip(i + 1) =~= rest.subrange(i + 1, rest.len() as int));
}

proof fn lemma_lines_len(b: Seq<u8>, n: int)
    ensures
        lines_of(b, n).len() >= 1,
        0 <= n ==> lines_of(b, n).len() <= n + 1,
    decreases n,
{
    if n > 0 {
        lemma_lines_len(b, n - 1);
    }
}

/// Which lines are blank does not depend on what follows them.
proof fn lemma_filled_same(a: Seq<Seq<u8>>, b: Seq<Seq<u8>>, n: int)
    requires
        n <= a.len(),
        n <= b.len(),
        forall|k: int| 0 <= k < n ==> a[k] == b[k],
    ensures
        filled_lines(a, n) == filled_lines(b, n),
    decreases n,
{
    if n > 0 {
        lemma_filled_same(a, b, n - 1);
    }
}

proof fn lemma_filled_range(lines: Seq<Seq<u8>>, n: int)
    ensures
        forall|k: int|
            0 <= k < filled_lines(lines, n).len() ==> 0 <= #[trigger] filled_lines(lines, n)[k] < n,
    decreases n,
{
    if n > 0 {
        lemma_filled_range(lines, n - 1);
        let before = filled_lines(lines, n - 1);
        assert forall|k: int| 0 <= k < filled_lines(lines, n).len() implies 0
            <= #[trigger] filled_lines(lines, n)[k] < n by {
            if k < before.len() {
                assert(0 <= before[k] < n - 1);
            }
        }
    }
}

/// Appends a line that has ended, unless it is blank.
fn end_line(
    out: &mut Vec<Listed>,
    line: &[u8],
    i: usize,
    sizes: Option<&[u64]>,
    modified: Option<&[u64]>,
    lines: Ghost<Seq<Seq<u8>>>,
)
    requires
        vstd::utf8::valid_utf8(line@),
        i < lines@.len(),
        lines@[i as int] == line@,
        lists(old(out)@, lines@, i as int, sizes, modified),
    ensures
        lists(final(out)@, lines@, i + 1, sizes, modified),
{
    let ghost places = filled_lines(lines@, i as int);
    if line.len() > 0 {
        let path = text_of(vstd::slice::slice_to_vec(line));
        let listed = Listed { path, size: read_field(sizes, i), modified: read_field(modified, i) };
        let ghost before = out@;
        assert(is_listed(listed, lines@, i as int, sizes, modified));
        out.push(listed);
        assert forall|k: int| 0 <= k < out@.len() implies is_listed(
            #[trigger] out@[k],
            lines@,
            places.push(i as int)[k],
            sizes,
            modified,
        ) by {
            if k < before.len() {
                assert(out@[k] == before[k]);
                assert(is_listed(before[k], lines@, places[k], sizes, modified));
            }
        }
    }
}

/// Takes a list of paths apart, one to a line. Sizes and times go by line, so
/// blank lines keep their place.
pub fn list_paths(text: &[u8], sizes: Option<&[u64]>, modified: Option<&[u64]>) -> (r: Result<
    Vec<Listed>,
    NotUtf8,
>)
    ensures
        match r {
            Ok(out) => vstd::utf8::valid_utf8(text@) && lists(
                out@,
                lines_of(text@, text@.len() as int),
                lines_of(text@, text@.len() as int).len() as int,
                sizes,
                modified,
            ),
            Err(_) => !vstd::utf8::valid_utf8(text@),
        },
{
    if utf8_text(text).is_none() {
        return Err(NotUtf8);
    }
    let len: usize = text.len();
    let mut out: Vec<Listed> = Vec::new();
    let mut start: usize = 0;
    let mut line: usize = 0;
    let mut i: usize = 0;
    assert(text@.skip(0) =~= text@);
    assert(lines_of(text@, 0).last() =~= text@.subrange(0, 0));
    while i < len
        invariant
            len == text@.len(),
            start <= i <= len,
            vstd::utf8::valid_utf8(text@),
            vstd::utf8::valid_utf8(text@.skip(start as int)),
            line + 1 == lines_of(text@, i as int).len(),
            line <= i,
            lines_of(text@, i as int).last() == text@.subrange(start as int, i as int),
            lists(out@, lines_of(text@, i as int), line as int, sizes, modified),
        decreases len - i,
    {
        let ghost before = lines_of(text@, i as int);
        let ghost after = lines_of(text@, i + 1);
        if text[i] == NEWLINE {
            let part = vstd::slice::slice_subrange(text, start, i);
            proof {
                let rest = text@.skip(start as int);
                assert(rest[i - start] == NEWLINE);
                lemma_line_valid(rest, i - start);
                assert(rest.take(i - start) =~= part@);
                assert(rest.skip(i - start + 1) =~= text@.skip(i + 1));
                lemma_same_list(out@, before, after, line as int, sizes, modified);
                assert(after[line as int] == part@);
            }
            end_line(&mut out, part, line, sizes, modified, Ghost(after));
            start = i + 1;
            line += 1;
            assert(after.last() =~= text@.subrange(i + 1, i + 1));
        } else {
            proof {
                lemma_same_list(out@, before, after, line as int, sizes, modified);
                assert(after.last() =~= text@.subrange(start as int, i + 1));
            }
        }
        i += 1;
    }
    let part = vstd::slice::slice_subrange(text, start, len);
    assert(part@ =~= text@.skip(start as int));
    end_line(&mut out, part, line, sizes, modified, Ghost(lines_of(text@, len as int)));
    Ok(out)
}

proof fn lemma_same_list(
    out: Seq<Listed>,
    a: Seq<Seq<u8>>,
    b: Seq<Seq<u8>>,
    n: int,
    sizes: Option<&[u64]>,
    modified: Option<&[u64]>,
)
    requires
        lists(out, a, n, sizes, modified),
        0 <= n <= a.len(),
        n <= b.len(),
        forall|k: int| 0 <= k < n ==> a[k] == b[k],
    ensures
        lists(out, b, n, sizes, modified),
{
    lemma_filled_same(a, b, n);
    lemma_filled_range(a, n);
    let places = filled_lines(a, n);
    assert forall|k: int| 0 <= k < out.len() implies is_listed(
        #[trigger] out[k],
        b,
        places[k],
        sizes,
        modified,
    ) by {
        assert(is_listed(out[k], a, places[k], sizes, modified));
        assert(0 <= places[k] < n);
    }
}

/// The byte between the segments of a path.
pub const SLASH: u8 = 0x2f;

/// Paths with `/` in place of the platform's own separator.
pub fn to_canonical_slashes(raw: &[u8], separator: u8) -> (r: Vec<u8>)
    ensures
        r@ == raw@.map_values(
            |b: u8|
                if b == separator {
                    SLASH
                } else {
                    b
                },
        ),
{
    let mut out: Vec<u8> = Vec::new();
    let mut i: usize = 0;
    while i < raw.len()
        invariant
            i <= raw@.len(),
            out@.len() == i,
            forall|k: int|
                0 <= k < i ==> (#[trigger] out@[k]) == if raw@[k] == separator {
                    SLASH
                } else {
                    raw@[k]
                },
        decreases raw@.len() - i,
    {
        let b: u8 = raw[i];
        if b == separator {
            out.push(SLASH);
        } else {
            out.push(b);
        }
        i += 1;
    }
    assert(out@ =~= raw@.map_values(
        |b: u8|
            if b == separator {
                SLASH
            } else {
                b
            },
    ));
    out
}

/// The listed paths as entries of a layer.
pub fn entries_of(listed: &Vec<Listed>) -> (r: Vec<IndexEntry<'_>>)
    ensures
        r@.len() == listed@.len(),
        forall|i: int|
            0 <= i < r@.len() ==> (#[trigger] r@[i]).relative_path@ == listed@[i].path@
                && r@[i].size == listed@[i].size && r@[i].modified == listed@[i].modified
                && r@[i].binary is None,
{
    let mut out: Vec<IndexEntry<'_>> = Vec::new();
    let mut i: usize = 0;
    while i < listed.len()
        invariant
            i <= listed@.len(),
            out@.len() == i,
            forall|k: int|
                0 <= k < i ==> (#[trigger] out@[k]).relative_path@ == listed@[k].path@
                    && out@[k].size == listed@[k].size && out@[k].modified == listed@[k].modified
                    && out@[k].binary is None,
        decreases listed@.len() - i,
    {
        let one = &listed[i];
        out.push(
            IndexEntry::new(one.path.as_str()).with_metadata(one.size, one.modified),
        );
        i += 1;
    }
    out
}

} // verus!
