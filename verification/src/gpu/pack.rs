//! Paths as the shaders read them.

use crate::bytes;
use crate::bytes::Rank;
use crate::sorting;
use crate::sorting::Ranking;
use vstd::prelude::*;

verus! {

/// Paths that are interleaved word by word.
pub const SOA_GROUP: usize = 64;

/// Paths that are sorted by length together.
pub const SOA_BLOCK: usize = 4096;

/// Words that `len` bytes take.
pub open spec fn words_for(len: int) -> int {
    (len + 3) / 4
}

/// Word `w` of some bytes, least significant byte first; what is behind them
/// counts as zeros.
pub open spec fn word_at(b: Seq<u8>, w: int) -> u32 {
    if 4 * w >= b.len() {
        0
    } else if 4 * w + 4 > b.len() {
        bytes::le_value(b.skip(4 * w)) as u32
    } else {
        bytes::le_value(b.subrange(4 * w, 4 * w + 4)) as u32
    }
}

pub open spec fn path_bytes(paths: Seq<String>, i: int) -> Seq<u8> {
    vstd::utf8::encode_utf8(paths[i]@)
}

/// Words of some bytes, the last one filled up with zeros.
pub open spec fn words_of(b: Seq<u8>) -> Seq<u32> {
    Seq::new(words_for(b.len() as int) as nat, |w: int| word_at(b, w))
}

/// Words of the first `n` paths, each starting at a word.
pub open spec fn packed_words(paths: Seq<String>, n: int) -> Seq<u32>
    decreases n,
{
    if n <= 0 {
        Seq::empty()
    } else {
        packed_words(paths, n - 1) + words_of(path_bytes(paths, n - 1))
    }
}

fn read_word(b: &[u8], w: usize) -> (r: u32)
    requires
        w < words_for(b@.len() as int),
    ensures
        r == word_at(b@, w as int),
{
    let len: usize = b.len();
    let start: usize = 4 * w;
    let end: usize = if len - start >= 4 {
        start + 4
    } else {
        len
    };
    let part = vstd::slice::slice_subrange(b, start, end);
    proof {
        bytes::lemma_le_limits();
        bytes::lemma_le_limit_monotone(part@.len(), 4);
        if len - start < 4 {
            assert(part@ =~= b@.skip(start as int));
        }
    }
    bytes::read_le(part) as u32
}

fn push_words(out: &mut Vec<u32>, b: &[u8])
    ensures
        final(out)@ == old(out)@ + words_of(b@),
{
    let ghost before = out@;
    let len: usize = b.len();
    let count: usize = len / 4 + if len % 4 == 0 {
        0
    } else {
        1
    };
    let mut w: usize = 0;
    assert(out@ =~= before + words_of(b@).take(0));
    while w < count
        invariant
            w <= count == words_for(b@.len() as int),
            out@ == before + words_of(b@).take(w as int),
        decreases count - w,
    {
        out.push(read_word(b, w));
        assert(out@ =~= before + words_of(b@).take(w + 1));
        w += 1;
    }
    assert(words_of(b@).take(count as int) =~= words_of(b@));
}

/// Where path `i` starts, in bytes, and how many bytes it has.
pub open spec fn packed_item(paths: Seq<String>, i: int, word0: int) -> [u32; 2] {
    [
        (4 * (word0 + packed_words(paths, i).len())) as u32,
        path_bytes(paths, i).len() as u32,
    ]
}

proof fn lemma_packed_grows(paths: Seq<String>, i: int, n: int)
    requires
        0 <= i <= n <= paths.len(),
    ensures
        packed_words(paths, i).len() <= packed_words(paths, n).len(),
    decreases n,
{
    if i < n {
        lemma_packed_grows(paths, i, n - 1);
    }
}

/// Word-aligned paths starting at word `word0`; a trailing zero word lets
/// shaders read one word past the last path.
pub fn pack_paths(paths: &[String], word0: usize) -> (r: (Vec<u32>, Vec<[u32; 2]>))
    requires
        4 * (word0 + packed_words(paths@, paths@.len() as int).len()) <= u32::MAX,
    ensures
        r.0@ == packed_words(paths@, paths@.len() as int).push(0),
        r.1@.len() == paths@.len(),
        forall|i: int|
            0 <= i < paths@.len() ==> (#[trigger] r.1@[i])@ == packed_item(
                paths@,
                i,
                word0 as int,
            )@,
{
    let mut words: Vec<u32> = Vec::new();
    let mut items: Vec<[u32; 2]> = Vec::new();
    let mut i: usize = 0;
    while i < paths.len()
        invariant
            i <= paths@.len(),
            4 * (word0 + packed_words(paths@, paths@.len() as int).len()) <= u32::MAX,
            words@ == packed_words(paths@, i as int),
            items@.len() == i,
            forall|k: int|
                0 <= k < i ==> (#[trigger] items@[k])@ == packed_item(paths@, k, word0 as int)@,
        decreases paths@.len() - i,
    {
        proof {
            lemma_packed_grows(paths@, i as int, paths@.len() as int);
            lemma_packed_grows(paths@, i + 1, paths@.len() as int);
        }
        let b = paths[i].as_str().as_bytes();
        let start: u64 = 4 * (word0 as u64 + words.len() as u64);
        assert(b@.len() <= 4 * words_of(b@).len());
        let item: [u32; 2] = [start as u32, b.len() as u32];
        items.push(item);
        push_words(&mut words, b);
        i += 1;
    }
    words.push(0);
    (words, items)
}

/// All paths, one behind the other.
pub open spec fn joined_bytes(paths: Seq<String>, n: int) -> Seq<u8>
    decreases n,
{
    if n <= 0 {
        Seq::empty()
    } else {
        joined_bytes(paths, n - 1) + path_bytes(paths, n - 1)
    }
}

proof fn lemma_joined_grows(paths: Seq<String>, i: int, n: int)
    requires
        0 <= i <= n <= paths.len(),
    ensures
        joined_bytes(paths, i).len() <= joined_bytes(paths, n).len(),
    decreases n,
{
    if i < n {
        lemma_joined_grows(paths, i, n - 1);
    }
}

/// The words hold the paths one behind the other and a zero, and each item
/// says where its path starts, in bytes, and how many bytes it has.
pub open spec fn is_tight(paths: Seq<String>, words: Seq<u32>, items: Seq<[u32; 2]>) -> bool {
    &&& words == words_of(joined_bytes(paths, paths.len() as int)).push(0)
    &&& items.len() == paths.len()
    &&& forall|i: int|
        0 <= i < paths.len() ==> (#[trigger] items[i])@ == seq![
            joined_bytes(paths, i).len() as u32,
            path_bytes(paths, i).len() as u32,
        ]
}

/// Paths one behind the other, starting anywhere in a word; a trailing zero
/// word lets shaders read one word past the last path.
pub fn pack_paths_tight(paths: &[String]) -> (r: (Vec<u32>, Vec<[u32; 2]>))
    requires
        joined_bytes(paths@, paths@.len() as int).len() <= u32::MAX,
    ensures
        is_tight(paths@, r.0@, r.1@),
{
    let mut joined: Vec<u8> = Vec::new();
    let mut items: Vec<[u32; 2]> = Vec::new();
    let mut i: usize = 0;
    while i < paths.len()
        invariant
            i <= paths@.len(),
            joined_bytes(paths@, paths@.len() as int).len() <= u32::MAX,
            joined@ == joined_bytes(paths@, i as int),
            items@.len() == i,
            forall|k: int|
                0 <= k < i ==> (#[trigger] items@[k])@ == seq![
                    joined_bytes(paths@, k).len() as u32,
                    path_bytes(paths@, k).len() as u32,
                ],
        decreases paths@.len() - i,
    {
        proof {
            lemma_joined_grows(paths@, i as int, paths@.len() as int);
            lemma_joined_grows(paths@, i + 1, paths@.len() as int);
        }
        let b = paths[i].as_str().as_bytes();
        let item: [u32; 2] = [joined.len() as u32, b.len() as u32];
        assert(item@ =~= seq![
            joined_bytes(paths@, i as int).len() as u32,
            path_bytes(paths@, i as int).len() as u32,
        ]);
        items.push(item);
        joined.extend_from_slice(b);
        assert(joined@ =~= joined_bytes(paths@, i + 1));
        i += 1;
    }
    let mut words: Vec<u32> = Vec::new();
    push_words(&mut words, joined.as_slice());
    words.push(0);
    (words, items)
}

/// The number of workgroups in each direction.
pub open spec fn grid_of(groups: int) -> (int, int) {
    let x = if groups < 1 {
        1
    } else if groups > 32768 {
        32768
    } else {
        groups
    };
    (x, (groups + x - 1) / x)
}

/// Spreads `groups` workgroups over two dimensions, of which the first may not
/// exceed what devices take.
pub fn grid(groups: u32) -> (r: (u32, u32))
    ensures
        (r.0 as int, r.1 as int) == grid_of(groups as int),
        1 <= r.0 <= 32768,
        r.0 * r.1 >= groups,
{
    let x: u32 = if groups < 1 {
        1
    } else if groups > 32768 {
        32768
    } else {
        groups
    };
    let wide: u64 = groups as u64 + x as u64 - 1;
    let y: u64 = wide / x as u64;
    assert(y <= groups && x * y >= groups) by (nonlinear_arith)
        requires
            1 <= x <= 32768,
            x <= groups || (groups == 0 && x == 1),
            wide == groups + x - 1,
            y == wide / (x as u64),
    ;
    (x, y as u32)
}

/// Shorter paths first.
pub struct LengthRanking {}

impl Ranking<usize> for LengthRanking {
    open spec fn admits(&self, a: usize) -> bool {
        true
    }

    open spec fn le(&self, a: usize, b: usize) -> bool {
        a <= b
    }

    proof fn total(&self, a: usize, b: usize) {
    }

    proof fn transitive(&self, a: usize, b: usize, c: usize) {
    }

    fn order(&self, a: &usize, b: &usize) -> Rank {
        if *a < *b {
            Rank::Before
        } else if *a > *b {
            Rank::After
        } else {
            Rank::Level
        }
    }
}

/// First path behind block `b`.
pub open spec fn block_end(b: int, n: int) -> int {
    if (b + 1) * 4096 < n {
        (b + 1) * 4096
    } else {
        n
    }
}

/// Lengths of the paths of block `b`.
pub open spec fn block_lens(paths: Seq<String>, b: int) -> Seq<usize> {
    Seq::new(
        (block_end(b, paths.len() as int) - b * 4096) as nat,
        |i: int| path_bytes(paths, b * 4096 + i).len() as usize,
    )
}

/// The paths of block `b` take the places of the block, by length where they
/// are sorted.
pub open spec fn block_ordered(
    paths: Seq<String>,
    order: Seq<usize>,
    b: int,
    sort: bool,
    inner: Seq<usize>,
) -> bool {
    let lens = block_lens(paths, b);
    &&& if sort {
        sorting::is_stable_order(lens, LengthRanking {  }, inner)
    } else {
        inner == Seq::new(lens.len(), |i: int| i as usize)
    }
    &&& forall|i: int|
        b * 4096 <= i < block_end(b, paths.len() as int) ==> (#[trigger] order[i]) == b * 4096
            + inner[i - b * 4096]
}

/// Which path each thread gets.
pub open spec fn is_thread_order(paths: Seq<String>, order: Seq<usize>, sort: bool) -> bool {
    &&& sorting::is_permutation(order, paths.len())
    &&& forall|b: int|
        0 <= b && b * 4096 < paths.len() ==> #[trigger] has_block_order(paths, order, b, sort)
}

pub open spec fn has_block_order(
    paths: Seq<String>,
    order: Seq<usize>,
    b: int,
    sort: bool,
) -> bool {
    exists|inner: Seq<usize>| #[trigger] block_ordered(paths, order, b, sort, inner)
}

proof fn lemma_blocks_permute(paths: Seq<String>, order: Seq<usize>, sort: bool, n: int)
    requires
        0 <= n <= paths.len() == order.len(),
        paths.len() <= usize::MAX,
        n == paths.len() || n % 4096 == 0,
        forall|b: int|
            0 <= b && b * 4096 < n ==> #[trigger] has_block_order(paths, order, b, sort),
    ensures
        forall|x: int|
            0 <= x < n ==> (#[trigger] order[x]) / 4096 == x / 4096 && order[x] < paths.len(),
        forall|x: int, y: int|
            0 <= x < y < n ==> #[trigger] order[x] != #[trigger] order[y],
{
    assert forall|x: int| 0 <= x < n implies (#[trigger] order[x]) / 4096 == x / 4096 && order[x]
        < paths.len() by {
        let b = x / 4096;
        assert(has_block_order(paths, order, b, sort));
        let inner = choose|inner: Seq<usize>| #[trigger]
            block_ordered(paths, order, b, sort, inner);
        let i = x - b * 4096;
        assert(inner[i] < block_lens(paths, b).len());
    }
    assert forall|x: int, y: int| 0 <= x < y < n implies #[trigger] order[x]
        != #[trigger] order[y] by {
        let b = x / 4096;
        if y / 4096 == b {
            assert(has_block_order(paths, order, b, sort));
            let inner = choose|inner: Seq<usize>| #[trigger]
                block_ordered(paths, order, b, sort, inner);
            assert(inner[x - b * 4096] != inner[y - b * 4096]);
        }
    }
}

/// Works out which path each thread gets.
fn thread_order(paths: &[String], sort: bool) -> (order: Vec<usize>)
    ensures
        is_thread_order(paths@, order@, sort),
{
    let n: usize = paths.len();
    let mut order: Vec<usize> = Vec::new();
    let mut start: usize = 0;
    let ghost mut blocks: int = 0;
    while start < n
        invariant
            n == paths@.len(),
            start <= n,
            order@.len() == start,
            start == n || start == blocks * 4096,
            0 <= blocks,
            forall|b: int|
                0 <= b && b * 4096 < start ==> b < blocks && #[trigger] has_block_order(
                    paths@,
                    order@,
                    b,
                    sort,
                ),
        decreases n - start,
    {
        let ghost held = order@;
        let end: usize = if n - start > SOA_BLOCK {
            start + SOA_BLOCK
        } else {
            n
        };
        let inner = block_order(paths, start, end, sort, Ghost(blocks));
        let mut i: usize = 0;
        while i < inner.len()
            invariant
                i <= inner@.len() == end - start,
                end <= n,
                order@.len() == start + i,
                forall|k: int| 0 <= k < inner@.len() ==> (#[trigger] inner@[k]) < end - start,
                forall|k: int| 0 <= k < start ==> #[trigger] order@[k] == held[k],
                forall|k: int|
                    start <= k < start + i ==> (#[trigger] order@[k]) == start + inner@[k - start],
            decreases inner@.len() - i,
        {
            assert(inner@[i as int] < end - start);
            order.push(start + inner[i]);
            i += 1;
        }
        proof {
            assert(block_ordered(paths@, order@, blocks, sort, inner@));
            assert forall|b: int| 0 <= b && b * 4096 < end implies b < blocks + 1
                && #[trigger] has_block_order(paths@, order@, b, sort) by {
                if b * 4096 < start {
                    assert(has_block_order(paths@, held, b, sort));
                    let other = choose|other: Seq<usize>| #[trigger]
                        block_ordered(paths@, held, b, sort, other);
                    assert(block_ordered(paths@, order@, b, sort, other));
                } else {
                    assert(b == blocks);
                }
            }
            blocks = blocks + 1;
        }
        start = end;
    }
    proof {
        lemma_blocks_permute(paths@, order@, sort, n as int);
    }
    order
}

/// The order of one block.
fn block_order(paths: &[String], start: usize, end: usize, sort: bool, b: Ghost<int>) -> (inner: Vec<
    usize,
>)
    requires
        start == b@ * 4096,
        start < end <= paths@.len(),
        end == block_end(b@, paths@.len() as int),
    ensures
        inner@.len() == end - start,
        forall|k: int| 0 <= k < inner@.len() ==> (#[trigger] inner@[k]) < end - start,
        if sort {
            sorting::is_stable_order(block_lens(paths@, b@), LengthRanking {  }, inner@)
        } else {
            inner@ == Seq::new(block_lens(paths@, b@).len(), |i: int| i as usize)
        },
{
    if !sort {
        let mut inner: Vec<usize> = Vec::new();
        let mut i: usize = 0;
        while i < end - start
            invariant
                start < end,
                i <= end - start,
                inner@.len() == i,
                forall|k: int| 0 <= k < i ==> (#[trigger] inner@[k]) == k,
            decreases end - start - i,
        {
            inner.push(i);
            i += 1;
        }
        assert(inner@ =~= Seq::new(block_lens(paths@, b@).len(), |i: int| i as usize));
        return inner;
    }
    let mut lens: Vec<usize> = Vec::new();
    let mut i: usize = 0;
    while i < end - start
        invariant
            start < end <= paths@.len(),
            i <= end - start,
            lens@.len() == i,
            forall|k: int|
                0 <= k < i ==> (#[trigger] lens@[k]) == path_bytes(paths@, start + k).len(),
        decreases end - start - i,
    {
        lens.push(paths[start + i].as_str().as_bytes().len());
        i += 1;
    }
    assert(lens@ =~= block_lens(paths@, b@));
    sorting::stable_order(lens.as_slice(), &LengthRanking {  })
}

/// Words of the longest of the threads `t..end`.
pub open spec fn longest_words(
    paths: Seq<String>,
    order: Seq<usize>,
    t: int,
    end: int,
) -> int
    decreases end - t,
{
    if t >= end {
        0
    } else {
        let rest = longest_words(paths, order, t, end - 1);
        let words = words_for(path_bytes(paths, order[end - 1] as int).len() as int);
        if words > rest {
            words
        } else {
            rest
        }
    }
}

/// First thread behind group `g`.
pub open spec fn group_end(g: int, n: int) -> int {
    if (g + 1) * 64 < n {
        (g + 1) * 64
    } else {
        n
    }
}

pub open spec fn group_words(paths: Seq<String>, order: Seq<usize>, g: int) -> int {
    longest_words(paths, order, g * 64, group_end(g, paths.len() as int))
}

/// First word of group `g`.
pub open spec fn group_base(paths: Seq<String>, order: Seq<usize>, g: int) -> int
    decreases g,
{
    if g <= 0 {
        0
    } else {
        group_base(paths, order, g - 1) + 64 * group_words(paths, order, g - 1)
    }
}

pub open spec fn group_count(n: int) -> int {
    (n + 63) / 64
}

/// Word `w` of what lane `lane` of group `g` reads; zero where there is no path.
pub open spec fn lane_word(
    paths: Seq<String>,
    order: Seq<usize>,
    g: int,
    w: int,
    lane: int,
) -> u32 {
    let t = g * 64 + lane;
    if t < paths.len() {
        word_at(path_bytes(paths, order[t] as int), w)
    } else {
        0
    }
}

/// What the threads of groups below `g` read: word by word, lane by lane.
pub open spec fn soa_words(paths: Seq<String>, order: Seq<usize>, g: int) -> Seq<u32>
    decreases g,
{
    if g <= 0 {
        Seq::empty()
    } else {
        soa_words(paths, order, g - 1) + Seq::new(
            (64 * group_words(paths, order, g - 1)) as nat,
            |k: int| lane_word(paths, order, g - 1, k / 64, k % 64),
        )
    }
}

proof fn lemma_longest(paths: Seq<String>, order: Seq<usize>, t: int, end: int, k: int)
    requires
        t <= k < end,
    ensures
        words_for(path_bytes(paths, order[k] as int).len() as int) <= longest_words(
            paths,
            order,
            t,
            end,
        ),
        0 <= longest_words(paths, order, t, end),
    decreases end - t,
{
    if k < end - 1 {
        lemma_longest(paths, order, t, end - 1, k);
    } else {
        lemma_longest_nonneg(paths, order, t, end - 1);
    }
}

proof fn lemma_longest_nonneg(paths: Seq<String>, order: Seq<usize>, t: int, end: int)
    ensures
        0 <= longest_words(paths, order, t, end),
    decreases end - t,
{
    if t < end {
        lemma_longest_nonneg(paths, order, t, end - 1);
    }
}

proof fn lemma_soa_len(paths: Seq<String>, order: Seq<usize>, g: int)
    requires
        0 <= g,
    ensures
        soa_words(paths, order, g).len() == group_base(paths, order, g),
    decreases g,
{
    if g > 0 {
        lemma_soa_len(paths, order, g - 1);
        lemma_longest_nonneg(
            paths,
            order,
            (g - 1) * 64,
            group_end(g - 1, paths.len() as int),
        );
    }
}

proof fn lemma_soa_prefix(paths: Seq<String>, order: Seq<usize>, g: int, m: int, k: int)
    requires
        0 <= g <= m,
        0 <= k < soa_words(paths, order, g).len(),
    ensures
        soa_words(paths, order, g).len() <= soa_words(paths, order, m).len(),
        soa_words(paths, order, m)[k] == soa_words(paths, order, g)[k],
    decreases m,
{
    if g < m {
        lemma_soa_prefix(paths, order, g, m - 1, k);
    }
}

/// A group starts inside the words of all groups.
pub proof fn lemma_base_within(paths: Seq<String>, order: Seq<usize>, g: int)
    requires
        0 <= g <= group_count(paths.len() as int),
    ensures
        group_base(paths, order, g) <= soa_words(
            paths,
            order,
            group_count(paths.len() as int),
        ).len(),
        soa_words(paths, order, group_count(paths.len() as int)).len() == group_base(
            paths,
            order,
            group_count(paths.len() as int),
        ),
{
    lemma_soa_len(paths, order, group_count(paths.len() as int));
    lemma_base_grows(paths, order, g, group_count(paths.len() as int));
}

/// What is uploaded for the prefilter.
pub open spec fn is_soa(
    paths: Seq<String>,
    order: Seq<usize>,
    id0: int,
    soa: Seq<u32>,
    starts: Seq<u32>,
    ids: Seq<u32>,
) -> bool {
    let n = paths.len() as int;
    &&& soa == soa_words(paths, order, group_count(n))
    &&& starts.len() == n
    &&& forall|t: int|
        0 <= t < n ==> starts[(#[trigger] order[t]) as int] == group_base(paths, order, t / 64) + t
            % 64
    &&& ids.len() == 64 * group_count(n)
    &&& forall|t: int|
        0 <= t < ids.len() ==> (#[trigger] ids[t]) == if t < n {
            id0 + order[t]
        } else {
            u32::MAX as int
        }
}

/// A thread finds word `w` of its path 64 words behind the one before, starting
/// where `starts` says.
pub proof fn law_threads_read_their_path(
    paths: Seq<String>,
    order: Seq<usize>,
    id0: int,
    soa: Seq<u32>,
    starts: Seq<u32>,
    ids: Seq<u32>,
    t: int,
    w: int,
)
    requires
        is_soa(paths, order, id0, soa, starts, ids),
        0 <= t < paths.len(),
        0 <= w < words_for(path_bytes(paths, order[t] as int).len() as int),
    ensures
        starts[order[t] as int] + 64 * w < soa.len(),
        soa[starts[order[t] as int] + 64 * w] == word_at(
            path_bytes(paths, order[t] as int),
            w,
        ),
{
    let n = paths.len() as int;
    let g = t / 64;
    let lane = t % 64;
    let base = group_base(paths, order, g);
    assert(starts[(order[t]) as int] == base + lane);
    lemma_soa_len(paths, order, g);
    lemma_soa_len(paths, order, g + 1);
    lemma_longest(paths, order, g * 64, group_end(g, n), t);
    let k = 64 * w + lane;
    assert(k / 64 == w && k % 64 == lane);
    let part = soa_words(paths, order, g + 1);
    assert(part[base + k] == lane_word(paths, order, g, k / 64, k % 64));
    lemma_soa_prefix(paths, order, g + 1, group_count(n), base + k);
}

fn path_words(path: &String) -> (r: usize)
    ensures
        r == words_for(vstd::utf8::encode_utf8(path@).len() as int),
{
    let len: usize = path.as_str().as_bytes().len();
    len / 4 + if len % 4 == 0 {
        0
    } else {
        1
    }
}

/// Words of the longest path of a group.
fn measure_group(paths: &[String], order: &Vec<usize>, start: usize, end: usize) -> (r: usize)
    requires
        sorting::is_permutation(order@, paths@.len()),
        start <= end <= paths@.len(),
    ensures
        r == longest_words(paths@, order@, start as int, end as int),
{
    let mut most: usize = 0;
    let mut t: usize = start;
    while t < end
        invariant
            sorting::is_permutation(order@, paths@.len()),
            start <= t <= end <= paths@.len(),
            most == longest_words(paths@, order@, start as int, t as int),
        decreases end - t,
    {
        let words: usize = path_words(&paths[order[t]]);
        if words > most {
            most = words;
        }
        t += 1;
    }
    most
}

/// Appends what one group reads.
fn push_group(
    soa: &mut Vec<u32>,
    paths: &[String],
    order: &Vec<usize>,
    g: usize,
    words: usize,
)
    requires
        sorting::is_permutation(order@, paths@.len()),
        g * 64 < paths@.len(),
        words == group_words(paths@, order@, g as int),
    ensures
        final(soa)@ == old(soa)@ + Seq::new(
            (64 * group_words(paths@, order@, g as int)) as nat,
            |k: int| lane_word(paths@, order@, g as int, k / 64, k % 64),
        ),
{
    let n: usize = paths.len();
    let ghost before = soa@;
    let ghost all = Seq::new(
        (64 * group_words(paths@, order@, g as int)) as nat,
        |k: int| lane_word(paths@, order@, g as int, k / 64, k % 64),
    );
    let start: usize = g * 64;
    let mut w: usize = 0;
    assert(soa@ =~= before + all.take(0));
    while w < words
        invariant
            n == paths@.len(),
            start == g * 64,
            start < n,
            w <= words,
            words == group_words(paths@, order@, g as int),
            sorting::is_permutation(order@, paths@.len()),
            all == Seq::new(
                (64 * group_words(paths@, order@, g as int)) as nat,
                |k: int| lane_word(paths@, order@, g as int, k / 64, k % 64),
            ),
            soa@ == before + all.take(64 * w),
        decreases words - w,
    {
        let mut lane: usize = 0;
        while lane < 64
            invariant
                n == paths@.len(),
                start == g * 64,
                start < n,
                w < words,
                lane <= 64,
                words == group_words(paths@, order@, g as int),
                sorting::is_permutation(order@, paths@.len()),
                all == Seq::new(
                    (64 * group_words(paths@, order@, g as int)) as nat,
                    |k: int| lane_word(paths@, order@, g as int, k / 64, k % 64),
                ),
                soa@ == before + all.take(64 * w + lane),
            decreases 64 - lane,
        {
            let word: u32 = if lane < n - start {
                let path = &paths[order[start + lane]];
                let b = path.as_str().as_bytes();
                if w < path_words(path) {
                    read_word(b, w)
                } else {
                    0
                }
            } else {
                0
            };
            soa.push(word);
            proof {
                let k = 64 * w + lane;
                assert(k / 64 == w && k % 64 == lane);
                assert(word == lane_word(paths@, order@, g as int, w as int, lane as int));
                assert(all[k] == word);
                assert(soa@ =~= before + all.take(k + 1));
            }
            lane += 1;
        }
        w += 1;
    }
    assert(all.take(64 * words) =~= all);
}

/// The interleaved words of the paths can be counted in 32 bits.
pub open spec fn soa_fits(paths: Seq<String>, sort: bool) -> bool {
    forall|order: Seq<usize>| #[trigger]
        is_thread_order(paths, order, sort) ==> group_base(
            paths,
            order,
            group_count(paths.len() as int),
        ) + 64 <= u32::MAX
}

/// So can they behind `word0` words.
pub open spec fn soa_fits_behind(paths: Seq<String>, word0: int, sort: bool) -> bool {
    forall|order: Seq<usize>| #[trigger]
        is_thread_order(paths, order, sort) ==> word0 + group_base(
            paths,
            order,
            group_count(paths.len() as int),
        ) + 64 <= u32::MAX
}

/// Words and bytes of the packed paths can be counted in 32 bits, and so can
/// the ids.
pub open spec fn packs(paths: Seq<String>, word0: int, id0: int, sort: bool) -> bool {
    &&& 4 * (word0 + packed_words(paths, paths.len() as int).len()) <= u32::MAX
    &&& id0 + paths.len() <= u32::MAX
    &&& soa_fits(paths, sort)
}

proof fn lemma_thread_order_unique(
    paths: Seq<String>,
    a: Seq<usize>,
    b: Seq<usize>,
    sort: bool,
)
    requires
        is_thread_order(paths, a, sort),
        is_thread_order(paths, b, sort),
        paths.len() <= usize::MAX,
    ensures
        a == b,
{
    assert forall|x: int| 0 <= x < paths.len() implies a[x] == b[x] by {
        let block = x / 4096;
        assert(has_block_order(paths, a, block, sort));
        assert(has_block_order(paths, b, block, sort));
        let i = choose|i: Seq<usize>| #[trigger] block_ordered(paths, a, block, sort, i);
        let j = choose|j: Seq<usize>| #[trigger] block_ordered(paths, b, block, sort, j);
        if sort {
            sorting::lemma_stable_order_unique(
                block_lens(paths, block),
                LengthRanking {  },
                i,
                j,
            );
        }
    }
    assert(a =~= b);
}

/// Whether the interleaved words fit behind `word0` words.
pub fn soa_can_fit(paths: &[String], word0: usize, sort: bool) -> (r: bool)
    ensures
        r == soa_fits_behind(paths@, word0 as int, sort),
{
    let n: usize = paths.len();
    let order = thread_order(paths, sort);
    let groups: usize = n / 64 + if n % 64 == 0 {
        0
    } else {
        1
    };
    let mut total: u64 = word0 as u64;
    if total > u32::MAX as u64 || total + 64 > u32::MAX as u64 {
        proof {
            lemma_base_grows(paths@, order@, 0, groups as int);
        }
        return false;
    }
    let mut g: usize = 0;
    while g < groups
        invariant
            n == paths@.len(),
            groups == group_count(n as int),
            g <= groups,
            is_thread_order(paths@, order@, sort),
            total == word0 + group_base(paths@, order@, g as int),
            total + 64 <= u32::MAX,
        decreases groups - g,
    {
        let start: usize = g * 64;
        let end: usize = if n - start > 64 {
            start + 64
        } else {
            n
        };
        let words: usize = measure_group(paths, &order, start, end);
        if words as u64 > u32::MAX as u64 || total + words as u64 * 64 + 64 > u32::MAX as u64 {
            proof {
                lemma_base_grows(paths@, order@, g + 1, groups as int);
            }
            return false;
        }
        total = total + words as u64 * 64;
        g += 1;
    }
    proof {
        assert forall|other: Seq<usize>| #[trigger]
            is_thread_order(paths@, other, sort) implies word0 + group_base(
            paths@,
            other,
            group_count(n as int),
        ) + 64 <= u32::MAX by {
            lemma_thread_order_unique(paths@, order@, other, sort);
        }
    }
    true
}

/// Whether paths can be packed behind what is there.
pub fn can_pack(paths: &[String], word0: usize, id0: usize, sort: bool) -> (r: bool)
    ensures
        r == packs(paths@, word0 as int, id0 as int, sort),
{
    let n: usize = paths.len();
    if word0 as u64 > u32::MAX as u64 || id0 as u64 > u32::MAX as u64 || n as u64 > u32::MAX as u64
        - id0 as u64 {
        return false;
    }
    let mut words: u64 = word0 as u64;
    if 4 * words > u32::MAX as u64 {
        return false;
    }
    let mut i: usize = 0;
    while i < n
        invariant
            n == paths@.len(),
            i <= n,
            words == word0 + packed_words(paths@, i as int).len(),
            4 * words <= u32::MAX,
        decreases n - i,
    {
        let more: usize = path_words(&paths[i]);
        if more as u64 > u32::MAX as u64 || 4 * (words + more as u64) > u32::MAX as u64 {
            proof {
                lemma_packed_grows(paths@, i + 1, n as int);
            }
            return false;
        }
        words = words + more as u64;
        i += 1;
    }
    assert(soa_fits(paths@, sort) == soa_fits_behind(paths@, 0, sort));
    soa_can_fit(paths, 0, sort)
}

/// The first `m` threads find where their path starts.
spec fn starts_placed(paths: Seq<String>, order: Seq<usize>, starts: Seq<u32>, m: int) -> bool {
    forall|t: int|
        0 <= t < paths.len() && t < m ==> starts[(#[trigger] order[t]) as int] == group_base(
            paths,
            order,
            t / 64,
        ) + t % 64
}

/// The threads that have been placed know their path.
spec fn ids_placed(order: Seq<usize>, n: int, id0: int, ids: Seq<u32>) -> bool {
    forall|t: int|
        0 <= t < ids.len() ==> (#[trigger] ids[t]) == if t < n {
            id0 + order[t]
        } else {
            u32::MAX as int
        }
}

/// Places the threads of group `g`.
fn place_group(
    paths: &[String],
    order: &Vec<usize>,
    id0: usize,
    g: usize,
    first: usize,
    starts: &mut Vec<u32>,
    ids: &mut Vec<u32>,
)
    requires
        sorting::is_permutation(order@, paths@.len()),
        64 * g < paths@.len(),
        first == group_base(paths@, order@, g as int),
        first + 64 <= u32::MAX,
        id0 + paths@.len() <= u32::MAX,
        old(starts)@.len() == paths@.len(),
        starts_placed(paths@, order@, old(starts)@, 64 * g),
        old(ids)@.len() == 64 * g,
        ids_placed(order@, paths@.len() as int, id0 as int, old(ids)@),
    ensures
        final(starts)@.len() == paths@.len(),
        starts_placed(paths@, order@, final(starts)@, 64 * (g + 1)),
        final(ids)@.len() == 64 * (g + 1),
        ids_placed(order@, paths@.len() as int, id0 as int, final(ids)@),
{
    let n: usize = paths.len();
    let start: usize = g * 64;
    let mut lane: usize = 0;
    while lane < 64
        invariant
            n == paths@.len(),
            lane <= 64,
            start == g * 64,
            start < n,
            first == group_base(paths@, order@, g as int),
            first + 64 <= u32::MAX,
            id0 + n <= u32::MAX,
            sorting::is_permutation(order@, n as nat),
            starts@.len() == n,
            starts_placed(paths@, order@, starts@, start + lane),
            ids@.len() == start + lane,
            ids_placed(order@, n as int, id0 as int, ids@),
        decreases 64 - lane,
    {
        if lane < n - start {
            let t: usize = start + lane;
            let i: usize = order[t];
            ids.push((id0 + i) as u32);
            let ghost held = starts@;
            starts.set(i, (first + lane) as u32);
            proof {
                assert(t as int / 64 == g && t as int % 64 == lane);
                assert forall|u: int| 0 <= u < n && u < t + 1 implies starts@[(
                #[trigger] order@[u]) as int] == group_base(paths@, order@, u / 64) + u % 64 by {
                    if u < t {
                        assert(order@[u] != order@[t as int]);
                        assert(held[order@[u] as int] == group_base(paths@, order@, u / 64) + u
                            % 64);
                    }
                }
            }
        } else {
            ids.push(u32::MAX);
        }
        lane += 1;
    }
}

/// Groups of 64 paths interleaved by word, padded to the longest path in the
/// group. With `sort`, groups come from length-sorted blocks so that padding
/// stays small. Returns the words, where each path starts, and which path each
/// thread gets (`u32::MAX` for padding), counted from `id0`.
pub fn pack_paths_soa(paths: &[String], id0: usize, sort: bool) -> (r: (
    Vec<u32>,
    Vec<u32>,
    Vec<u32>,
))
    requires
        id0 + paths@.len() <= u32::MAX,
        soa_fits(paths@, sort),
    ensures
        exists|order: Seq<usize>| #[trigger]
            is_thread_order(paths@, order, sort) && is_soa(
                paths@,
                order,
                id0 as int,
                r.0@,
                r.1@,
                r.2@,
            ),
{
    let n: usize = paths.len();
    let order = thread_order(paths, sort);
    let groups: usize = n / 64 + if n % 64 == 0 {
        0
    } else {
        1
    };
    let mut soa: Vec<u32> = Vec::new();
    let mut starts: Vec<u32> = Vec::new();
    let mut ids: Vec<u32> = Vec::new();
    let mut i: usize = 0;
    while i < n
        invariant
            i <= n,
            starts@.len() == i,
        decreases n - i,
    {
        starts.push(0);
        i += 1;
    }
    let mut g: usize = 0;
    while g < groups
        invariant
            n == paths@.len(),
            groups == group_count(n as int),
            g <= groups,
            id0 + n <= u32::MAX,
            is_thread_order(paths@, order@, sort),
            group_base(paths@, order@, groups as int) + 64 <= u32::MAX,
            soa@ == soa_words(paths@, order@, g as int),
            starts@.len() == n,
            starts_placed(paths@, order@, starts@, 64 * g),
            ids@.len() == 64 * g,
            ids_placed(order@, n as int, id0 as int, ids@),
        decreases groups - g,
    {
        let start: usize = g * 64;
        let end: usize = if n - start > 64 {
            start + 64
        } else {
            n
        };
        proof {
            lemma_soa_len(paths@, order@, g as int);
            lemma_base_grows(paths@, order@, g as int, groups as int);
        }
        let words: usize = measure_group(paths, &order, start, end);
        let first: usize = soa.len();
        place_group(paths, &order, id0, g, first, &mut starts, &mut ids);
        push_group(&mut soa, paths, &order, g, words);
        g += 1;
    }
    proof {
        assert(is_soa(paths@, order@, id0 as int, soa@, starts@, ids@));
    }
    (soa, starts, ids)
}

proof fn lemma_base_grows(paths: Seq<String>, order: Seq<usize>, g: int, m: int)
    requires
        0 <= g <= m,
    ensures
        group_base(paths, order, g) <= group_base(paths, order, m),
    decreases m,
{
    if g < m {
        lemma_base_grows(paths, order, g, m - 1);
        lemma_longest_nonneg(paths, order, (m - 1) * 64, group_end(m - 1, paths.len() as int));
    }
}

} // verus!
