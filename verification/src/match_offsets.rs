//! Byte ranges of matched characters.

use smallvec::SmallVec;
use vstd::prelude::*;

verus! {

/// `(start, end)` byte ranges of one path. Four of them fit without an
/// allocation.
#[verifier::external_body]
pub struct ByteRanges {
    inner: SmallVec<[(u32, u32); 4]>,
}

/// The ranges held, in order.
pub uninterp spec fn byte_ranges(ranges: ByteRanges) -> Seq<(u32, u32)>;

impl ByteRanges {
    /// No ranges: `SmallVec::new`.
    #[verifier::external_body]
    fn empty() -> (r: Self)
        ensures
            byte_ranges(r) == Seq::<(u32, u32)>::empty(),
    {
        ByteRanges { inner: SmallVec::new() }
    }

    /// Appends a range: `SmallVec::push`.
    #[verifier::external_body]
    fn append(&mut self, range: (u32, u32))
        ensures
            byte_ranges(*final(self)) == byte_ranges(*old(self)).push(range),
    {
        self.inner.push(range)
    }

    /// The ranges as a slice: `SmallVec::as_slice`.
    #[verifier::external_body]
    fn slice(&self) -> (r: &[(u32, u32)])
        ensures
            r@ == byte_ranges(*self),
    {
        self.inner.as_slice()
    }

    /// Overwrites the range at `i`: `SmallVec::as_mut_slice`.
    #[verifier::external_body]
    fn replace(&mut self, i: usize, range: (u32, u32))
        requires
            i < byte_ranges(*old(self)).len(),
        ensures
            byte_ranges(*final(self)) == byte_ranges(*old(self)).update(i as int, range),
    {
        self.inner.as_mut_slice()[i] = range;
    }

    /// Drops the ranges from `len` on: `SmallVec::truncate`.
    #[verifier::external_body]
    fn shorten(&mut self, len: usize)
        requires
            len <= byte_ranges(*old(self)).len(),
        ensures
            byte_ranges(*final(self)) == byte_ranges(*old(self)).take(len as int),
    {
        self.inner.truncate(len)
    }

    /// Sorts in place by start, then by end: the slice's `sort_unstable`, whose
    /// order on pairs of integers is the lexicographic one.
    #[verifier::external_body]
    fn sort_in_place(&mut self)
        ensures
            byte_ranges(*final(self)).to_multiset() == byte_ranges(*old(self)).to_multiset(),
            ranges_ascend(byte_ranges(*final(self))),
    {
        self.inner.as_mut_slice().sort_unstable()
    }

    /// Whether the ranges left the inline storage: `SmallVec::spilled`. More
    /// than four always have; what fewer once grew to is not said.
    #[verifier::external_body]
    fn has_spilled(&self) -> (r: bool)
        ensures
            byte_ranges(*self).len() > 4 ==> r,
    {
        self.inner.spilled()
    }

    pub fn new() -> (r: Self)
        ensures
            byte_ranges(r).len() == 0,
    {
        ByteRanges::empty()
    }

    pub fn push(&mut self, range: (u32, u32))
        ensures
            byte_ranges(*final(self)) == byte_ranges(*old(self)).push(range),
    {
        self.append(range);
    }

    pub fn as_slice(&self) -> (r: &[(u32, u32)])
        ensures
            r@ == byte_ranges(*self),
    {
        self.slice()
    }

    pub fn len(&self) -> (r: usize)
        ensures
            r == byte_ranges(*self).len(),
    {
        self.slice().len()
    }

    /// The ranges have left the inline storage.
    pub fn spilled(&self) -> (r: bool)
        ensures
            byte_ranges(*self).len() > 4 ==> r,
    {
        self.has_spilled()
    }
}

pub open spec fn range_le(a: (u32, u32), b: (u32, u32)) -> bool {
    a.0 < b.0 || (a.0 == b.0 && a.1 <= b.1)
}

/// Ordered by start, then by end.
pub open spec fn ranges_ascend(ranges: Seq<(u32, u32)>) -> bool {
    forall|i: int, j: int|
        0 <= i < j < ranges.len() ==> range_le(#[trigger] ranges[i], #[trigger] ranges[j])
}

/// Byte offset at which character `i` of `text` starts.
pub open spec fn char_start(text: Seq<char>, i: int) -> int {
    vstd::utf8::encode_utf8(text.take(i)).len() as int
}

/// The ranges with one more behind them; what touches the last range extends
/// it.
pub open spec fn with_range(ranges: Seq<(u32, u32)>, range: (u32, u32)) -> Seq<(u32, u32)> {
    if ranges.len() > 0 && ranges.last().1 == range.0 {
        ranges.update(ranges.len() - 1, (ranges.last().0, range.1))
    } else {
        ranges.push(range)
    }
}

/// Byte range of character `i`.
pub open spec fn char_range(text: Seq<char>, i: int) -> (u32, u32) {
    (char_start(text, i) as u32, char_start(text, i + 1) as u32)
}

/// The ranges of the first `n` indices; those behind the text count for
/// nothing.
pub open spec fn offsets_upto(text: Seq<char>, indices: Seq<u32>, n: int) -> Seq<(u32, u32)>
    decreases n,
{
    if n <= 0 {
        Seq::empty()
    } else if indices[n - 1] < text.len() {
        with_range(offsets_upto(text, indices, n - 1), char_range(text, indices[n - 1] as int))
    } else {
        offsets_upto(text, indices, n - 1)
    }
}

proof fn lemma_encode_push(chars: Seq<char>, c: char)
    ensures
        vstd::utf8::encode_utf8(chars.push(c)) == vstd::utf8::encode_utf8(chars)
            + vstd::utf8::encode_scalar(c as u32),
    decreases chars.len(),
{
    reveal_with_fuel(vstd::utf8::encode_utf8, 2);
    if chars.len() == 0 {
        assert(chars.push(c).drop_first() =~= Seq::<char>::empty());
        assert(chars =~= Seq::<char>::empty());
        assert(vstd::utf8::encode_utf8(chars.push(c)) =~= vstd::utf8::encode_scalar(c as u32));
        assert(vstd::utf8::encode_utf8(chars) + vstd::utf8::encode_scalar(c as u32)
            =~= vstd::utf8::encode_scalar(c as u32));
    } else {
        lemma_encode_push(chars.drop_first(), c);
        assert(chars.push(c).drop_first() =~= chars.drop_first().push(c));
        assert(vstd::utf8::encode_utf8(chars.push(c)) =~= vstd::utf8::encode_utf8(chars)
            + vstd::utf8::encode_scalar(c as u32));
    }
}

proof fn lemma_char_start_step(text: Seq<char>, i: int)
    requires
        0 <= i < text.len(),
    ensures
        char_start(text, i + 1) == char_start(text, i) + vstd::utf8::encode_scalar(
            text[i] as u32,
        ).len(),
{
    assert(text.take(i + 1) =~= text.take(i).push(text[i]));
    lemma_encode_push(text.take(i), text[i]);
}

proof fn lemma_char_start_bound(text: Seq<char>, i: int, j: int)
    requires
        0 <= i <= j <= text.len(),
    ensures
        char_start(text, i) + (j - i) <= char_start(text, j),
    decreases j - i,
{
    if i < j {
        lemma_char_start_bound(text, i, j - 1);
        lemma_char_start_step(text, j - 1);
    }
}

/// Bytes that a character takes.
fn utf8_len(c: char) -> (r: u32)
    ensures
        r == vstd::utf8::encode_scalar(c as u32).len(),
        1 <= r <= 4,
{
    let code: u32 = c as u32;
    if code <= 0x7f {
        1
    } else if code <= 0x7ff {
        2
    } else if code <= 0xffff {
        3
    } else {
        4
    }
}

/// Where each character starts, and where the text ends.
fn char_starts(line: &str) -> (starts: Vec<u32>)
    requires
        vstd::utf8::encode_utf8(line@).len() <= u32::MAX,
    ensures
        starts@.len() == line@.len() + 1,
        forall|i: int| 0 <= i <= line@.len() ==> (#[trigger] starts@[i]) == char_start(line@, i),
{
    broadcast use vstd::string::axiom_spec_iter;

    let ghost text = line@;
    let mut starts: Vec<u32> = Vec::new();
    let mut at: u32 = 0;
    proof {
        assert(text.take(0) =~= Seq::<char>::empty());
        assert(text.take(text.len() as int) =~= text);
    }
    starts.push(0);
    for c in it: line.chars()
        invariant
            it.seq() == text,
            text == line@,
            char_start(text, text.len() as int) <= u32::MAX,
            at == char_start(text, it.index()),
            starts@.len() == it.index() + 1,
            forall|i: int| 0 <= i < starts@.len() ==> (#[trigger] starts@[i]) == char_start(text, i),
    {
        proof {
            lemma_char_start_step(text, it.index());
            lemma_char_start_bound(text, it.index() + 1, text.len() as int);
        }
        at = at + utf8_len(c);
        starts.push(at);
    }
    starts
}

/// Byte ranges of the characters at ascending `char_indices`; neighbours share
/// a range. Indices behind the line are left out.
pub fn char_indices_to_byte_offsets(line: &str, char_indices: &[u32]) -> (r: ByteRanges)
    requires
        vstd::utf8::encode_utf8(line@).len() <= u32::MAX,
        forall|i: int, j: int|
            0 <= i < j < char_indices@.len() ==> (#[trigger] char_indices@[i]) <= (
            #[trigger] char_indices@[j]),
    ensures
        byte_ranges(r) == offsets_upto(line@, char_indices@, char_indices@.len() as int),
{
    let starts = char_starts(line);
    let mut result = ByteRanges::new();
    let mut k: usize = 0;
    while k < char_indices.len()
        invariant
            k <= char_indices@.len(),
            starts@.len() == line@.len() + 1,
            forall|i: int|
                0 <= i <= line@.len() ==> (#[trigger] starts@[i]) == char_start(line@, i),
            byte_ranges(result) == offsets_upto(line@, char_indices@, k as int),
        decreases char_indices@.len() - k,
    {
        let index: usize = char_indices[k] as usize;
        if index < starts.len() - 1 {
            let start: u32 = starts[index];
            let end: u32 = starts[index + 1];
            let ranges = result.as_slice();
            let count: usize = ranges.len();
            if count > 0 && ranges[count - 1].1 == start {
                let first: u32 = ranges[count - 1].0;
                result.replace(count - 1, (first, end));
            } else {
                result.push((start, end));
            }
        }
        k += 1;
    }
    result
}

/// Position `p` lies in one of the ranges.
pub open spec fn covers(ranges: Seq<(u32, u32)>, p: int) -> bool {
    exists|i: int| 0 <= i < ranges.len() && (#[trigger] ranges[i]).0 <= p < ranges[i].1
}

/// Each range holds something, and stands apart from the next.
pub open spec fn apart(ranges: Seq<(u32, u32)>) -> bool {
    &&& forall|i: int| 0 <= i < ranges.len() ==> (#[trigger] ranges[i]).0 < ranges[i].1
    &&& forall|i: int, j: int|
        0 <= i < j < ranges.len() ==> (#[trigger] ranges[i]).1 < (#[trigger] ranges[j]).0
}

/// Some of the first `n` indices names the character that the byte at `p`
/// belongs to.
pub open spec fn is_named_byte(text: Seq<char>, indices: Seq<u32>, n: int, p: int) -> bool {
    exists|k: int|
        0 <= k < n && (#[trigger] indices[k]) < text.len() && vstd::utf8::encode_utf8(
            text.take(indices[k] as int),
        ).len() <= p < vstd::utf8::encode_utf8(text.take(indices[k] + 1)).len()
}

/// The ranges cover the bytes of the characters at the indices, and no others.
/// They hold something each, and neighbouring characters share one.
pub proof fn law_ranges_cover_the_characters(text: Seq<char>, indices: Seq<u32>, n: int, p: int)
    requires
        0 <= n <= indices.len(),
        vstd::utf8::encode_utf8(text).len() <= u32::MAX,
    ensures
        covers(offsets_upto(text, indices, n), p) <==> is_named_byte(text, indices, n, p),
        forall|i: int|
            0 <= i < offsets_upto(text, indices, n).len() ==> (#[trigger] offsets_upto(
                text,
                indices,
                n,
            )[i]).0 < offsets_upto(text, indices, n)[i].1,
        forall|i: int|
            0 < i < offsets_upto(text, indices, n).len() ==> offsets_upto(text, indices, n)[i
                - 1].1 != (#[trigger] offsets_upto(text, indices, n)[i]).0,
    decreases n,
{
    if n > 0 {
        law_ranges_cover_the_characters(text, indices, n - 1, p);
        let before = offsets_upto(text, indices, n - 1);
        let after = offsets_upto(text, indices, n);
        let c = indices[n - 1] as int;
        assert(text.take(text.len() as int) =~= text);
        if c < text.len() {
            lemma_char_start_bound(text, c, c + 1);
            lemma_char_start_bound(text, c + 1, text.len() as int);
            let range = char_range(text, c);
            let hit = range.0 <= p < range.1;
            let last = before.len() - 1;
            let joins = before.len() > 0 && before.last().1 == range.0;
            if covers(after, p) {
                let i = choose|i: int| 0 <= i < after.len() && (#[trigger] after[i]).0 <= p < after[i].1;
                if i < before.len() && before[i].0 <= p < before[i].1 {
                    assert(covers(before, p));
                    let k = choose|k: int|
                        0 <= k < n - 1 && (#[trigger] indices[k]) < text.len()
                            && vstd::utf8::encode_utf8(text.take(indices[k] as int)).len() <= p
                            < vstd::utf8::encode_utf8(text.take(indices[k] + 1)).len();
                    assert(indices[k] < text.len());
                    assert(is_named_byte(text, indices, n, p));
                } else {
                    assert(hit);
                    assert(indices[n - 1] < text.len());
                    assert(is_named_byte(text, indices, n, p));
                }
            }
            if is_named_byte(text, indices, n, p) {
                let k = choose|k: int|
                    0 <= k < n && (#[trigger] indices[k]) < text.len() && vstd::utf8::encode_utf8(
                        text.take(indices[k] as int),
                    ).len() <= p < vstd::utf8::encode_utf8(text.take(indices[k] + 1)).len();
                if k < n - 1 {
                    assert(indices[k] < text.len());
                    assert(is_named_byte(text, indices, n - 1, p));
                    let i = choose|i: int|
                        0 <= i < before.len() && (#[trigger] before[i]).0 <= p < before[i].1;
                    assert(after[i].0 <= p < after[i].1);
                } else {
                    assert(hit);
                    if joins {
                        assert(before[last].0 < before[last].1);
                        assert(after[last].0 <= p < after[last].1);
                    } else {
                        assert(after[before.len() as int].0 <= p < after[before.len() as int].1);
                    }
                }
            }
            assert forall|i: int| 0 <= i < after.len() implies (#[trigger] after[i]).0 < after[i].1 by {
                if i < before.len() {
                    assert(before[i].0 < before[i].1);
                }
            }
            assert forall|i: int| 0 < i < after.len() implies after[i - 1].1 != (
            #[trigger] after[i]).0 by {
                if i < before.len() {
                    assert(before[i - 1].1 != before[i].0);
                    assert(after[i - 1] == before[i - 1]);
                }
            }
        } else {
            if is_named_byte(text, indices, n, p) {
                let k = choose|k: int|
                    0 <= k < n && (#[trigger] indices[k]) < text.len() && vstd::utf8::encode_utf8(
                        text.take(indices[k] as int),
                    ).len() <= p < vstd::utf8::encode_utf8(text.take(indices[k] + 1)).len();
                assert(indices[k] < text.len());
                assert(is_named_byte(text, indices, n - 1, p));
            }
            if is_named_byte(text, indices, n - 1, p) {
                let k = choose|k: int|
                    0 <= k < n - 1 && (#[trigger] indices[k]) < text.len()
                        && vstd::utf8::encode_utf8(text.take(indices[k] as int)).len() <= p
                        < vstd::utf8::encode_utf8(text.take(indices[k] + 1)).len();
                assert(indices[k] < text.len());
                assert(is_named_byte(text, indices, n, p));
            }
        }
    }
}

proof fn lemma_same_cover(a: Seq<(u32, u32)>, b: Seq<(u32, u32)>, p: int)
    requires
        a.to_multiset() == b.to_multiset(),
        covers(a, p),
    ensures
        covers(b, p),
{
    broadcast use vstd::seq_lib::group_to_multiset_ensures;

    let i = choose|i: int| 0 <= i < a.len() && (#[trigger] a[i]).0 <= p < a[i].1;
    assert(a.contains(a[i]));
    assert(a.to_multiset().count(a[i]) > 0);
    assert(b.contains(a[i]));
    let j = choose|j: int| 0 <= j < b.len() && b[j] == a[i];
    assert(b[j].0 <= p < b[j].1);
}

/// What the first `n` of the ascending `ranges` merge into.
pub open spec fn merged_upto(ranges: Seq<(u32, u32)>, n: int) -> Seq<(u32, u32)>
    decreases n,
{
    if n <= 0 {
        Seq::empty()
    } else {
        merge_one(merged_upto(ranges, n - 1), ranges[n - 1])
    }
}

/// A range that starts before the last one ends joins it; an empty one counts
/// for nothing.
pub open spec fn merge_one(merged: Seq<(u32, u32)>, range: (u32, u32)) -> Seq<(u32, u32)> {
    if range.1 <= range.0 {
        merged
    } else if merged.len() > 0 && range.0 <= merged.last().1 {
        let end = if merged.last().1 >= range.1 {
            merged.last().1
        } else {
            range.1
        };
        merged.update(merged.len() - 1, (merged.last().0, end))
    } else {
        merged.push(range)
    }
}

proof fn lemma_merged(ranges: Seq<(u32, u32)>, n: int)
    requires
        ranges_ascend(ranges),
        0 <= n <= ranges.len(),
    ensures
        apart(merged_upto(ranges, n)),
        merged_upto(ranges, n).len() <= n,
        n > 0 && merged_upto(ranges, n).len() > 0 ==> merged_upto(ranges, n).last().0 <= ranges[n
            - 1].0,
        forall|p: int| #[trigger]
            covers(merged_upto(ranges, n), p) <==> covers(ranges.take(n), p),
    decreases n,
{
    if n > 0 {
        lemma_merged(ranges, n - 1);
        let before = merged_upto(ranges, n - 1);
        let after = merged_upto(ranges, n);
        let range = ranges[n - 1];
        if n > 1 {
            assert(range_le(ranges[n - 2], ranges[n - 1]));
        }
        assert forall|p: int| #[trigger] covers(after, p) <==> covers(ranges.take(n), p) by {
            lemma_merge_cover(before, range, p);
            lemma_take_cover(ranges, n, p);
            assert(covers(before, p) <==> covers(ranges.take(n - 1), p));
        }
    }
}

proof fn lemma_take_cover(ranges: Seq<(u32, u32)>, n: int, p: int)
    requires
        0 < n <= ranges.len(),
    ensures
        covers(ranges.take(n), p) <==> covers(ranges.take(n - 1), p) || ranges[n - 1].0 <= p
            < ranges[n - 1].1,
{
    let a = ranges.take(n);
    let b = ranges.take(n - 1);
    if covers(a, p) {
        let i = choose|i: int| 0 <= i < a.len() && (#[trigger] a[i]).0 <= p < a[i].1;
        if i < n - 1 {
            assert(b[i].0 <= p < b[i].1);
        }
    }
    if covers(b, p) {
        let i = choose|i: int| 0 <= i < b.len() && (#[trigger] b[i]).0 <= p < b[i].1;
        assert(a[i].0 <= p < a[i].1);
    }
    if ranges[n - 1].0 <= p < ranges[n - 1].1 {
        assert(a[n - 1].0 <= p < a[n - 1].1);
    }
}

proof fn lemma_merge_cover(merged: Seq<(u32, u32)>, range: (u32, u32), p: int)
    requires
        apart(merged),
        merged.len() > 0 ==> merged.last().0 <= range.0,
    ensures
        covers(merge_one(merged, range), p) <==> covers(merged, p) || range.0 <= p < range.1,
{
    let after = merge_one(merged, range);
    let k = merged.len() - 1;
    if covers(after, p) {
        let i = choose|i: int| 0 <= i < after.len() && (#[trigger] after[i]).0 <= p < after[i].1;
        if i < merged.len() && after[i] == merged[i] {
            assert(merged[i].0 <= p < merged[i].1);
        } else if merged.len() > 0 && i == k {
            if p < merged[k].1 {
                assert(merged[k].0 <= p < merged[k].1);
            }
        }
    }
    if covers(merged, p) {
        let i = choose|i: int| 0 <= i < merged.len() && (#[trigger] merged[i]).0 <= p < merged[i].1;
        assert(after[i].0 <= p < after[i].1);
    }
    if range.0 <= p < range.1 {
        assert(after[after.len() - 1].0 <= p < after[after.len() - 1].1);
    }
}

/// Sorts the ranges and joins those that overlap or touch. Works in place, so
/// the storage stays where it is.
pub fn merge_byte_offsets(ranges: ByteRanges) -> (r: ByteRanges)
    ensures
        byte_ranges(ranges).len() <= 1 ==> r == ranges,
        byte_ranges(ranges).len() > 1 ==> {
            &&& apart(byte_ranges(r))
            &&& forall|p: int| #[trigger]
                covers(byte_ranges(r), p) <==> covers(byte_ranges(ranges), p)
        },
{
    let ghost given = byte_ranges(ranges);
    let mut ranges = ranges;
    if ranges.len() <= 1 {
        return ranges;
    }
    ranges.sort_in_place();
    let ghost sorted = byte_ranges(ranges);
    let count: usize = ranges.len();
    let mut merged: usize = 0;
    let mut index: usize = 0;
    while index < count
        invariant
            merged <= index <= count,
            count == sorted.len() == byte_ranges(ranges).len(),
            byte_ranges(ranges).take(merged as int) == merged_upto(sorted, index as int),
            forall|i: int| index <= i < count ==> #[trigger] byte_ranges(ranges)[i] == sorted[i],
        decreases count - index,
    {
        let ghost held = byte_ranges(ranges);
        let ghost front = held.take(merged as int);
        let (start, end) = ranges.as_slice()[index];
        assert((start, end) == sorted[index as int]);
        index += 1;
        if end <= start {
            continue;
        }
        if merged > 0 {
            let last: (u32, u32) = ranges.as_slice()[merged - 1];
            assert(front.last() == last);
            if start <= last.1 {
                let joined: u32 = if last.1 >= end {
                    last.1
                } else {
                    end
                };
                ranges.replace(merged - 1, (last.0, joined));
                assert(byte_ranges(ranges).take(merged as int) =~= front.update(
                    merged - 1,
                    (last.0, joined),
                ));
                continue;
            }
        }
        ranges.replace(merged, (start, end));
        assert(byte_ranges(ranges).take(merged + 1) =~= front.push((start, end)));
        merged += 1;
    }
    ranges.shorten(merged);
    proof {
        lemma_merged(sorted, count as int);
        assert(sorted.take(count as int) =~= sorted);
        assert forall|p: int| #[trigger] covers(byte_ranges(ranges), p) <==> covers(given, p) by {
            if covers(sorted, p) {
                lemma_same_cover(sorted, given, p);
            }
            if covers(given, p) {
                lemma_same_cover(given, sorted, p);
            }
        }
    }
    ranges
}

} // verus!
