//! Which part of a path a needle can match in.

use vstd::prelude::*;

verus! {

pub open spec fn is_lower(c: u8) -> bool {
    97 <= c <= 122
}

pub open spec fn is_upper(c: u8) -> bool {
    65 <= c <= 90
}

pub open spec fn is_digit(c: u8) -> bool {
    48 <= c <= 57
}

/// The other case of an ASCII letter; any other byte itself.
pub open spec fn flipped(c: u8) -> u8 {
    if is_lower(c) {
        (c - 32) as u8
    } else if is_upper(c) {
        (c + 32) as u8
    } else {
        c
    }
}

/// The bytes are the same but for the case of ASCII letters.
pub open spec fn alike(c: u8, nc: u8) -> bool {
    c == nc || c == flipped(nc)
}

pub fn flip_case(c: u8) -> (r: u8)
    ensures
        r == flipped(c),
{
    if 97 <= c && c <= 122 {
        c - 32
    } else if 65 <= c && c <= 90 {
        c + 32
    } else {
        c
    }
}

fn is_alike(c: u8, nc: u8) -> (r: bool)
    ensures
        r == alike(c, nc),
{
    c == nc || c == flip_case(nc)
}

/// The needle's bytes are found at these places, in order.
pub open spec fn found_at(needle: Seq<u8>, hay: Seq<u8>, at: Seq<int>) -> bool {
    &&& at.len() == needle.len()
    &&& forall|k: int|
        0 <= k < at.len() ==> 0 <= #[trigger] at[k] < hay.len() && alike(hay[at[k]], needle[k])
    &&& forall|k: int, m: int| 0 <= k < m < at.len() ==> #[trigger] at[k] < #[trigger] at[m]
}

/// The needle's bytes occur in order.
pub open spec fn occurs(needle: Seq<u8>, hay: Seq<u8>) -> bool {
    exists|at: Seq<int>| found_at(needle, hay, at)
}

/// From the first byte that is like the needle's first to behind the last
/// byte that is like the needle's last.
pub open spec fn is_window(needle: Seq<u8>, hay: Seq<u8>, start: int, end: int) -> bool {
    &&& 0 <= start < end <= hay.len()
    &&& alike(hay[start], needle[0])
    &&& forall|j: int| 0 <= j < start ==> !alike(#[trigger] hay[j], needle[0])
    &&& alike(hay[end - 1], needle.last())
    &&& forall|j: int| end <= j < hay.len() ==> !alike(#[trigger] hay[j], needle.last())
}

/// Leading needle bytes found among the first `j` bytes, each taken as early
/// as can be.
pub open spec fn taken(needle: Seq<u8>, hay: Seq<u8>, j: int) -> int
    decreases j,
{
    if j <= 0 {
        0
    } else {
        let k = taken(needle, hay, j - 1);
        if k < needle.len() && alike(hay[j - 1], needle[k]) {
            k + 1
        } else {
            k
        }
    }
}

proof fn lemma_taken_bound(needle: Seq<u8>, hay: Seq<u8>, j: int)
    ensures
        0 <= taken(needle, hay, j) <= needle.len(),
        0 <= j ==> taken(needle, hay, j) <= j,
    decreases j,
{
    if j > 0 {
        lemma_taken_bound(needle, hay, j - 1);
    }
}

proof fn lemma_taken_grows(needle: Seq<u8>, hay: Seq<u8>, i: int, j: int)
    requires
        i <= j,
    ensures
        taken(needle, hay, i) <= taken(needle, hay, j),
        0 <= i ==> taken(needle, hay, j) - taken(needle, hay, i) <= j - i,
    decreases j - i,
{
    if i < j {
        lemma_taken_grows(needle, hay, i, j - 1);
        if j <= 0 {
            lemma_taken_bound(needle, hay, i);
        }
    }
}

/// Wherever the bytes are found, taking them early finds as many.
proof fn lemma_early_is_enough(needle: Seq<u8>, hay: Seq<u8>, at: Seq<int>, k: int)
    requires
        found_at(needle, hay, at),
        0 <= k < needle.len(),
    ensures
        taken(needle, hay, at[k] + 1) >= k + 1,
    decreases k,
{
    if k > 0 {
        lemma_early_is_enough(needle, hay, at, k - 1);
        lemma_taken_grows(needle, hay, at[k - 1] + 1, at[k]);
    } else {
        lemma_taken_bound(needle, hay, at[0]);
    }
    assert(alike(hay[at[k]], needle[k]));
}

/// What was taken was found.
proof fn lemma_taken_found(needle: Seq<u8>, hay: Seq<u8>, j: int) -> (at: Seq<int>)
    requires
        0 <= j <= hay.len(),
    ensures
        found_at(needle.take(taken(needle, hay, j)), hay.take(j), at),
    decreases j,
{
    if j == 0 {
        Seq::empty()
    } else {
        let before = lemma_taken_found(needle, hay, j - 1);
        lemma_taken_bound(needle, hay, j - 1);
        let k = taken(needle, hay, j - 1);
        if k < needle.len() && alike(hay[j - 1], needle[k]) {
            let at = before.push(j - 1);
            assert forall|m: int| 0 <= m < at.len() implies 0 <= #[trigger] at[m] < j && alike(
                hay.take(j)[at[m]],
                needle.take(k + 1)[m],
            ) by {
                if m < k {
                    assert(at[m] == before[m]);
                    assert(alike(hay.take(j - 1)[before[m]], needle.take(k)[m]));
                }
            }
            at
        } else {
            assert forall|m: int| 0 <= m < before.len() implies 0 <= #[trigger] before[m] < j
                && alike(hay.take(j)[before[m]], needle.take(k)[m]) by {
                assert(alike(hay.take(j - 1)[before[m]], needle.take(k)[m]));
            }
            before
        }
    }
}

proof fn lemma_occurs(needle: Seq<u8>, hay: Seq<u8>)
    ensures
        occurs(needle, hay) <==> taken(needle, hay, hay.len() as int) == needle.len(),
{
    lemma_taken_bound(needle, hay, hay.len() as int);
    if occurs(needle, hay) && needle.len() > 0 {
        let at = choose|at: Seq<int>| found_at(needle, hay, at);
        lemma_early_is_enough(needle, hay, at, needle.len() - 1);
        assert(at[needle.len() - 1] < hay.len());
        lemma_taken_grows(needle, hay, at[needle.len() - 1] + 1, hay.len() as int);
    }
    if taken(needle, hay, hay.len() as int) == needle.len() {
        let at = lemma_taken_found(needle, hay, hay.len() as int);
        assert(needle.take(needle.len() as int) =~= needle);
        assert(hay.take(hay.len() as int) =~= hay);
        assert(found_at(needle, hay, at));
    }
}

/// A needle that occurs in as many bytes as it has is like them, byte by byte.
pub proof fn law_whole_path_is_alike(needle: Seq<u8>, hay: Seq<u8>)
    requires
        occurs(needle, hay),
        hay.len() == needle.len(),
    ensures
        forall|j: int| 0 <= j < hay.len() ==> alike(#[trigger] hay[j], needle[j]),
{
    lemma_occurs(needle, hay);
    assert forall|j: int| 0 <= j < hay.len() implies alike(#[trigger] hay[j], needle[j]) by {
        lemma_taken_bound(needle, hay, j);
        lemma_taken_grows(needle, hay, j + 1, hay.len() as int);
    }
}

/// A path that a longer needle occurs in survived the shorter one: looking only
/// at the survivors of a needle's start misses nothing.
pub proof fn law_longer_needles_keep_survivors(start: Seq<u8>, needle: Seq<u8>, hay: Seq<u8>)
    requires
        start.is_prefix_of(needle),
        occurs(needle, hay),
    ensures
        occurs(start, hay),
{
    let at = choose|at: Seq<int>| found_at(needle, hay, at);
    let n = start.len() as int;
    let part = at.take(n);
    assert forall|k: int| 0 <= k < part.len() implies 0 <= #[trigger] part[k] < hay.len() && alike(
        hay[part[k]],
        start[k],
    ) by {
        assert(part[k] == at[k]);
        assert(start[k] == needle.subrange(0, n)[k]);
    }
    assert forall|k: int, m: int| 0 <= k < m < part.len() implies #[trigger] part[k]
        < #[trigger] part[m] by {
        assert(at[k] < at[m]);
    }
    assert(found_at(start, hay, part));
}

/// The window of a path in which a needle can match; `None` where its bytes do
/// not occur in order, or where it is empty.
pub fn prefilter_window(needle: &[u8], hay: &[u8]) -> (r: Option<(usize, usize)>)
    ensures
        match r {
            Some((start, end)) => needle@.len() > 0 && occurs(needle@, hay@) && is_window(
                needle@,
                hay@,
                start as int,
                end as int,
            ),
            None => needle@.len() == 0 || !occurs(needle@, hay@),
        },
{
    if needle.len() == 0 {
        return None;
    }
    let mut k: usize = 0;
    let mut start: usize = 0;
    let mut j: usize = 0;
    while j < hay.len()
        invariant
            0 < needle@.len(),
            j <= hay@.len(),
            k == taken(needle@, hay@, j as int),
            k <= needle@.len(),
            k == 0 ==> forall|i: int| 0 <= i < j ==> !alike(#[trigger] hay@[i], needle@[0]),
            k > 0 ==> start < j && alike(hay@[start as int], needle@[0]) && forall|i: int|
                0 <= i < start ==> !alike(#[trigger] hay@[i], needle@[0]),
        decreases hay@.len() - j,
    {
        if k < needle.len() && is_alike(hay[j], needle[k]) {
            if k == 0 {
                start = j;
            }
            k += 1;
        }
        j += 1;
    }
    proof {
        lemma_occurs(needle@, hay@);
    }
    if k < needle.len() {
        return None;
    }
    let last: u8 = needle[needle.len() - 1];
    let mut end: usize = hay.len();
    proof {
        let at = choose|at: Seq<int>| found_at(needle@, hay@, at);
        assert(0 <= at[0] < hay@.len());
        let p = at[needle@.len() - 1];
        assert(alike(hay@[p], last));
        if at[0] < start {
            assert(alike(hay@[at[0]], needle@[0]));
        }
        assert(start <= at[0] <= p);
    }
    while !is_alike(hay[end - 1], last)
        invariant
            start < end <= hay@.len(),
            last == needle@.last(),
            exists|p: int| start <= p < end && alike(#[trigger] hay@[p], last),
            forall|i: int| end <= i < hay@.len() ==> !alike(#[trigger] hay@[i], last),
        decreases end,
    {
        end -= 1;
    }
    Some((start, end))
}

} // verus!
