//! What layers say of the files that were handed to them.

use crate::bytes;
use crate::index::codec::{LayerSnapshot, SnapshotLayout};
use crate::index::freeze;
use crate::index::layers;
use crate::index::layers::{LayerInfo, LayerStack};
use crate::index::listing;
use crate::index::listing::Listed;
use crate::index::snapshot;
use crate::index::snapshot::{EntryRecord, IndexEntry};
use crate::types;
use crate::types::FileItem;
use vstd::prelude::*;

verus! {

/// A `./` in front of a path says nothing.
pub proof fn law_leading_dots_do_not_show(raw: Seq<u8>)
    ensures
        snapshot::normalized(seq![0x2eu8, 0x2f] + raw) == snapshot::normalized(raw),
{
    let longer = seq![0x2eu8, 0x2f] + raw;
    assert(longer.skip(2) =~= raw);
}

/// A path without a `./` in front is taken as it is, where it is neither empty,
/// nor absolute, nor that of a directory, nor too long; it is refused otherwise.
pub proof fn law_relative_paths_are_taken(raw: Seq<u8>)
    requires
        !(raw.len() >= 2 && raw[0] == 0x2e && raw[1] == 0x2f),
    ensures
        raw.len() == 0 ==> snapshot::normalized(raw) is None,
        raw.len() > 0 && raw[0] == 0x2f ==> snapshot::normalized(raw) is None,
        raw.len() > 0 && raw[raw.len() - 1] == 0x2f ==> snapshot::normalized(raw) is None,
        raw.len() >= 4096 ==> snapshot::normalized(raw) is None,
        0 < raw.len() < 4096 && raw[0] != 0x2f && raw[raw.len() - 1] != 0x2f
            ==> snapshot::normalized(raw) == Some(raw),
{
}

/// What is taken is the end of what was handed in; reading it again changes
/// nothing.
pub proof fn law_reading_again_changes_nothing(raw: Seq<u8>)
    requires
        snapshot::normalized(raw) is Some,
    ensures
        snapshot::normalized(snapshot::normalized(raw)->0) == snapshot::normalized(raw),
        snapshot::normalized(raw)->0.len() <= raw.len(),
        raw.skip(raw.len() - snapshot::normalized(raw)->0.len()) == snapshot::normalized(raw)->0,
    decreases raw.len(),
{
    if raw.len() >= 2 && raw[0] == 0x2e && raw[1] == 0x2f {
        let rest = raw.skip(2);
        law_reading_again_changes_nothing(rest);
        let path = snapshot::normalized(raw)->0;
        assert(raw.skip(raw.len() - path.len()) =~= rest.skip(rest.len() - path.len()));
    } else {
        assert(raw.skip(0) =~= raw);
    }
}

/// What is kept of an entry is what it says: its size and modification time,
/// and whether it is binary, judged by its name where it does not say.
pub proof fn law_records_say_what_entries_do(entry: IndexEntry<'_>)
    ensures
        entry.record() is Some <==> snapshot::normalized(
            vstd::utf8::encode_utf8(entry.relative_path@),
        ) is Some,
        entry.record() matches Some(record) ==> {
            &&& Some(record.path) == snapshot::normalized(
                vstd::utf8::encode_utf8(entry.relative_path@),
            )
            &&& record.size == entry.size
            &&& record.modified == entry.modified
            &&& entry.binary matches Some(binary) ==> record.binary == binary
        },
{
}

/// An entry that does not say whether it is binary is judged by its last segment.
pub proof fn law_silent_entries_are_judged_by_name(
    entry: IndexEntry<'_>,
    dir: Seq<u8>,
    name: Seq<u8>,
)
    requires
        entry.binary is None,
        entry.record() is Some,
        vstd::utf8::encode_utf8(entry.relative_path@) == dir + name,
        dir.len() == 0 || dir.last() == 0x2f,
        forall|i: int| 0 <= i < name.len() ==> (#[trigger] name[i]) != 0x2f,
    ensures
        entry.record()->0.binary == snapshot::binary_name(name),
{
    let raw = dir + name;
    bytes::lemma_after_last_slash(raw);
    let at = bytes::after_last_slash(raw);
    if at < dir.len() {
        assert(raw[dir.len() - 1] == dir.last());
    }
    if at > dir.len() {
        assert(raw[at - 1] == name[at - 1 - dir.len()]);
    }
    assert(raw.skip(at) =~= name);
}

/// The name ends in this extension, behind a dot.
pub open spec fn has_extension(name: Seq<u8>, front: Seq<u8>, ext: Seq<u8>) -> bool {
    &&& name == front + seq![0x2eu8] + ext
    &&& forall|i: int| 0 <= i < ext.len() ==> (#[trigger] ext[i]) != 0x2e
}

proof fn lemma_after_last_dot(s: Seq<u8>, at: int)
    requires
        0 <= at <= s.len(),
        at > 0 ==> s[at - 1] == 0x2e,
        forall|i: int| at <= i < s.len() ==> (#[trigger] s[i]) != 0x2e,
    ensures
        snapshot::after_last_dot(s) == at,
    decreases s.len(),
{
    if s.len() > 0 {
        if at < s.len() {
            assert(s[s.len() - 1] != 0x2e);
            assert forall|i: int| at <= i < s.drop_last().len() implies (
            #[trigger] s.drop_last()[i]) != 0x2e by {
                assert(s.drop_last()[i] == s[i]);
            }
            lemma_after_last_dot(s.drop_last(), at);
        }
    }
}

/// Whether a name is that of a binary file rests on its extension alone; a name
/// without one is not.
pub proof fn law_extensions_decide(
    a: Seq<u8>,
    b: Seq<u8>,
    front_a: Seq<u8>,
    front_b: Seq<u8>,
    ext: Seq<u8>,
)
    requires
        has_extension(a, front_a, ext),
        has_extension(b, front_b, ext),
    ensures
        snapshot::binary_name(a) == snapshot::binary_name(b),
        snapshot::binary_name(a) == snapshot::binary_extension(ext),
{
    lemma_extension(a, front_a, ext);
    lemma_extension(b, front_b, ext);
}

proof fn lemma_extension(name: Seq<u8>, front: Seq<u8>, ext: Seq<u8>)
    requires
        has_extension(name, front, ext),
    ensures
        snapshot::binary_name(name) == snapshot::binary_extension(ext),
{
    let at = front.len() as int + 1;
    assert(name[at - 1] == 0x2e);
    assert forall|i: int| at <= i < name.len() implies (#[trigger] name[i]) != 0x2e by {
        assert(name[i] == ext[i - at]);
    }
    lemma_after_last_dot(name, at);
    assert(name.skip(at) =~= ext);
}

pub proof fn law_names_without_extension_are_text(name: Seq<u8>)
    requires
        forall|i: int| 0 <= i < name.len() ==> (#[trigger] name[i]) != 0x2e,
    ensures
        !snapshot::binary_name(name),
{
    lemma_after_last_dot(name, 0);
}

/// Every file of a layer that was built carries the path, the size and the
/// modification time of an entry that was pushed, is live, and nothing is known
/// of its uses.
pub proof fn law_built_files_carry_their_entries(
    entries: Seq<IndexEntry<'_>>,
    records: Seq<EntryRecord>,
    s: LayerSnapshot,
    i: int,
) -> (e: int)
    requires
        records.len() == entries.len(),
        forall|k: int|
            0 <= k < entries.len() ==> (#[trigger] entries[k]).record() == Some(records[k]),
        freeze::is_layer_of(records, s),
        0 <= i < s.files@.len(),
    ensures
        0 <= e < entries.len(),
        Some(s.store.path(s.files@[i].path)) == snapshot::normalized(
            vstd::utf8::encode_utf8(entries[e].relative_path@),
        ),
        s.files@[i].size == entries[e].size,
        s.files@[i].modified == entries[e].modified,
        entries[e].binary matches Some(binary) ==> s.files@[i].binary() == binary,
        !s.files@[i].deleted(),
        s.files@[i].layer() == 0,
        s.files@[i].access_frecency_score == 0,
        s.files@[i].modification_frecency_score == 0,
        s.files@[i].git_recency_score == 0,
        !s.files@[i].git_modified,
{
    assert(freeze::file_from(records, s, i));
    let e = choose|e: int|
        0 <= e < records.len() && {
            let r = #[trigger] records[e];
            let file = s.files@[i];
            &&& s.file_text(i) == r.path
            &&& file.path.filename_offset == bytes::after_last_slash(r.path)
            &&& file.size == r.size
            &&& file.modified == r.modified
            &&& file.binary() == r.binary
            &&& freeze::fresh_file(file)
        };
    assert(entries[e].record() == Some(records[e]));
    e
}

/// Every entry that was pushed is in the layer, once: no two files have one
/// path, and files are in the order of their directories, then of their names.
pub proof fn law_built_layers_hold_every_entry(
    entries: Seq<IndexEntry<'_>>,
    records: Seq<EntryRecord>,
    s: LayerSnapshot,
    e: int,
    i: int,
    j: int,
)
    requires
        records.len() == entries.len(),
        forall|k: int|
            0 <= k < entries.len() ==> (#[trigger] entries[k]).record() == Some(records[k]),
        freeze::is_layer_of(records, s),
        0 <= e < entries.len(),
        0 <= i < j < s.files@.len(),
    ensures
        exists|k: int|
            0 <= k < s.files@.len() && Some(s.store.path((#[trigger] s.files@[k]).path))
                == snapshot::normalized(vstd::utf8::encode_utf8(entries[e].relative_path@)),
        s.store.path(s.files@[i].path) != s.store.path(s.files@[j].path),
        s.layout == SnapshotLayout::Sorted,
        ({
            let a = s.file_key(i);
            let b = s.file_key(j);
            &&& a.dir == b.dir ==> bytes::lex_le(a.name, b.name)
            &&& a.dir != b.dir ==> bytes::lex_le(a.dir, b.dir)
        }),
{
    assert(entries[e].record() == Some(records[e]));
    assert(freeze::has_file(s, records[e].path));
    let k = choose|k: int| 0 <= k < s.files@.len() && #[trigger] s.file_text(k) == records[e].path;
    assert(s.store.path(s.files@[k].path) == records[e].path);
    types::lemma_key_total(s.file_key(i), s.file_key(j));
    assert(!types::key_le(s.file_key(j), s.file_key(i)));
    if s.store.path(s.files@[i].path) == s.store.path(s.files@[j].path) {
        assert(freeze::file_from(records, s, i));
        assert(freeze::file_from(records, s, j));
        let key = s.file_key(i);
        bytes::lemma_lex_reflexive(key.name);
        assert(s.file_key(j) == key);
    }
}

/// A description counts the rows of its layer, and those of them that are live.
pub proof fn law_descriptions_count_rows(
    stack: LayerStack,
    files: Seq<FileItem>,
    dirs_len: int,
    i: int,
    info: LayerInfo,
)
    requires
        layers::describes(stack, files, dirs_len, i, info),
        0 <= i < stack.layers@.len(),
        0 <= dirs_len,
    ensures
        info.id == i + 1,
        info.live_file_count <= info.file_count <= files.len(),
        info.dir_count <= dirs_len,
        ({
            let start = stack.layers@[i].files_start;
            let end = if i + 1 < stack.layers@.len() {
                stack.layers@[i + 1].files_start as int
            } else {
                files.len() as int
            };
            &&& start <= end <= files.len() ==> info.file_count == end - start
            &&& start <= end <= files.len() && (forall|k: int|
                start <= k < end ==> !(#[trigger] files[k]).deleted()) ==> info.live_file_count
                == end - start
            &&& start <= end <= files.len() && (forall|k: int|
                start <= k < end ==> (#[trigger] files[k]).deleted()) ==> info.live_file_count == 0
        }),
        info.is_open <==> stack.layers@[i].store is Open,
{
    let (start, end) = stack.file_span(i, files.len() as int);
    layers::law_ranges_stay_in_bounds(stack, i, files.len() as int);
    lemma_live_bound(files, start, end);
}

proof fn lemma_live_bound(files: Seq<FileItem>, start: int, end: int)
    requires
        0 <= start <= end <= files.len(),
    ensures
        layers::live_count(files, start, end) <= end - start,
        (forall|k: int| start <= k < end ==> !(#[trigger] files[k]).deleted())
            ==> layers::live_count(files, start, end) == end - start,
        (forall|k: int| start <= k < end ==> (#[trigger] files[k]).deleted())
            ==> layers::live_count(files, start, end) == 0,
    decreases end - start,
{
    if start < end {
        lemma_live_bound(files, start, end - 1);
    }
}

/// Deleting one live row takes one from the live count, and no other does.
pub proof fn law_deleted_rows_are_not_counted(
    a: Seq<FileItem>,
    b: Seq<FileItem>,
    start: int,
    end: int,
    k: int,
)
    requires
        0 <= start <= end <= a.len(),
        b.len() == a.len(),
        0 <= k < a.len(),
        forall|i: int| 0 <= i < a.len() && i != k ==> (#[trigger] a[i]).deleted() == b[i].deleted(),
        !a[k].deleted(),
        b[k].deleted(),
    ensures
        start <= k < end ==> layers::live_count(a, start, end) == layers::live_count(b, start, end)
            + 1,
        !(start <= k < end) ==> layers::live_count(a, start, end) == layers::live_count(
            b,
            start,
            end,
        ),
    decreases end - start,
{
    if start < end {
        law_deleted_rows_are_not_counted(a, b, start, end - 1, k);
        assert(end - 1 != k ==> a[end - 1].deleted() == b[end - 1].deleted());
    }
}

/// The layers share the rows behind the first of them among each other: every
/// row belongs to one, and to no other.
pub proof fn law_rows_belong_to_one_layer(stack: LayerStack, len: int, i: int, j: int, row: int)
    requires
        0 <= i < j < stack.layers@.len(),
        forall|a: int, b: int|
            0 <= a <= b < stack.layers@.len() ==> (#[trigger] stack.layers@[a]).files_start <= (
            #[trigger] stack.layers@[b]).files_start,
        0 <= row < len,
    ensures
        !(stack.file_span(i, len).0 <= row < stack.file_span(i, len).1 && stack.file_span(j, len).0
            <= row < stack.file_span(j, len).1),
        stack.layers@[i].files_start <= row < stack.layers@[i + 1].files_start ==> stack.file_span(
            i,
            len,
        ).0 <= row < stack.file_span(i, len).1,
        stack.layers@.last().files_start <= row ==> stack.file_span(
            stack.layers@.len() - 1,
            len,
        ).0 <= row < stack.file_span(stack.layers@.len() - 1, len).1,
{
    assert(stack.layers@[i + 1].files_start <= stack.layers@[j].files_start);
}

/// A listed path carries what stands at its own line in the lists beside it, and
/// nothing where they end before.
pub proof fn law_listed_paths_carry_their_fields(
    listed: Listed,
    lines: Seq<Seq<u8>>,
    i: int,
    sizes: Option<&[u64]>,
    modified: Option<&[u64]>,
)
    requires
        listing::is_listed(listed, lines, i, sizes, modified),
        0 <= i,
    ensures
        vstd::utf8::encode_utf8(listed.path@) == lines[i],
        sizes matches Some(values) ==> (i < values@.len() ==> listed.size == values@[i]),
        sizes matches Some(values) && i >= values@.len() ==> listed.size == 0,
        sizes is None ==> listed.size == 0,
        modified matches Some(values) ==> (i < values@.len() ==> listed.modified == values@[i]),
        modified matches Some(values) && i >= values@.len() ==> listed.modified == 0,
        modified is None ==> listed.modified == 0,
{
}

/// A line is listed exactly where it is not blank, in order.
pub proof fn law_blank_lines_are_left_out(lines: Seq<Seq<u8>>, n: int, i: int)
    requires
        0 <= i < n <= lines.len(),
    ensures
        ({
            let filled = listing::filled_lines(lines, n);
            let before = listing::filled_lines(lines, i).len() as int;
            &&& lines[i].len() > 0 ==> before < filled.len() && filled[before] == i
            &&& listing::filled_lines(lines, i + 1).len() == before + if lines[i].len() > 0 {
                1int
            } else {
                0
            }
        }),
    decreases n,
{
    if n - 1 > i {
        law_blank_lines_are_left_out(lines, n - 1, i);
    }
}

/// The last segment of a directory starts behind the `/` in front of it, with or
/// without a `/` at its end.
pub proof fn law_last_segments_start_behind_a_slash(front: Seq<u8>, segment: Seq<u8>)
    requires
        front.len() == 0 || front.last() == 0x2f,
        segment.len() > 0,
        forall|i: int| 0 <= i < segment.len() ==> (#[trigger] segment[i]) != 0x2f,
    ensures
        snapshot::last_segment(front + segment) == front.len(),
        snapshot::last_segment((front + segment).push(0x2f)) == front.len(),
{
    let dir = front + segment;
    assert(dir.push(0x2f).drop_last() =~= dir);
    assert(dir.last() == segment[segment.len() - 1]);
    bytes::lemma_after_last_slash(dir);
    let at = bytes::after_last_slash(dir);
    if at < front.len() {
        assert(dir[front.len() - 1] == front.last());
    }
    if at > front.len() {
        assert(dir[at - 1] == segment[at - 1 - front.len()]);
    }
}

/// The lines of a text, put together with line ends between them, are the text;
/// no line holds a line end.
pub proof fn law_lines_make_up_the_text(b: Seq<u8>, n: int)
    requires
        0 <= n <= b.len(),
    ensures
        listing::lines_of(b, n).len() > 0,
        put_together(listing::lines_of(b, n)) == b.take(n),
        forall|i: int, j: int|
            #![trigger listing::lines_of(b, n)[i][j]]
            0 <= i < listing::lines_of(b, n).len() && 0 <= j < listing::lines_of(b, n)[i].len()
                ==> listing::lines_of(b, n)[i][j] != 10,
    decreases n,
{
    if n > 0 {
        law_lines_make_up_the_text(b, n - 1);
        let before = listing::lines_of(b, n - 1);
        let after = listing::lines_of(b, n);
        if b[n - 1] == 10 {
            assert(after.drop_last() =~= before);
            assert(put_together(after) =~= b.take(n));
        } else {
            assert(after.drop_last() =~= before.drop_last());
            if before.len() == 1 {
                assert(put_together(before) =~= before.last());
                assert(put_together(after) =~= b.take(n));
            } else {
                assert(after.len() == before.len());
                assert(after.last() == before.last().push(b[n - 1]));
                assert(put_together(after) =~= put_together(before).push(b[n - 1]));
                assert(b.take(n) =~= b.take(n - 1).push(b[n - 1]));
            }
            assert forall|i: int, j: int|
                #![trigger after[i][j]]
                0 <= i < after.len() && 0 <= j < after[i].len() implies after[i][j] != 10 by {
                if i < before.len() - 1 {
                    assert(after[i] == before[i]);
                    assert(before[i][j] != 10);
                } else if j < before.last().len() {
                    assert(before[i][j] != 10);
                }
            }
        }
    } else {
        assert(put_together(listing::lines_of(b, n)) =~= b.take(n));
    }
}

/// Lines with line ends between them.
pub open spec fn put_together(lines: Seq<Seq<u8>>) -> Seq<u8>
    decreases lines.len(),
{
    if lines.len() == 0 {
        Seq::empty()
    } else if lines.len() == 1 {
        lines[0]
    } else {
        put_together(lines.drop_last()) + seq![10u8] + lines.last()
    }
}

} // verus!
