//! Stable sorting by a ranking.

use crate::bytes::Rank;
use rayon::slice::ParallelSliceMut;
use std::cmp::Ordering;
use vstd::prelude::*;

verus! {

/// A total preorder on the values of `T` that it admits.
pub trait Ranking<T> {
    /// The values that can be ranked.
    spec fn admits(&self, a: T) -> bool;

    /// `a` ranks before `b`, or level with it.
    spec fn le(&self, a: T, b: T) -> bool;

    proof fn total(&self, a: T, b: T)
        ensures
            self.le(a, b) || self.le(b, a),
    ;

    proof fn transitive(&self, a: T, b: T, c: T)
        requires
            self.le(a, b),
            self.le(b, c),
        ensures
            self.le(a, c),
    ;

    fn order(&self, a: &T, b: &T) -> (r: Rank)
        requires
            self.admits(*a),
            self.admits(*b),
        ensures
            r == Rank::Before <==> !self.le(*b, *a),
            r == Rank::After <==> !self.le(*a, *b),
    ;
}

/// Index `i` comes before index `j` in the stable order of `items`: it ranks
/// strictly before it, or level with it and stood in front of it.
pub open spec fn comes_before<T, R: Ranking<T>>(
    items: Seq<T>,
    ranking: R,
    i: usize,
    j: usize,
) -> bool {
    if ranking.le(items[j as int], items[i as int]) {
        ranking.le(items[i as int], items[j as int]) && i < j
    } else {
        true
    }
}

proof fn lemma_before_transitive<T, R: Ranking<T>>(
    items: Seq<T>,
    ranking: R,
    i: usize,
    j: usize,
    k: usize,
)
    requires
        comes_before(items, ranking, i, j),
        comes_before(items, ranking, j, k),
    ensures
        comes_before(items, ranking, i, k),
{
    let a = items[i as int];
    let b = items[j as int];
    let c = items[k as int];
    ranking.total(a, b);
    ranking.total(b, c);
    ranking.transitive(a, b, c);
    if ranking.le(c, a) {
        ranking.transitive(c, a, b);
        ranking.transitive(b, c, a);
    }
}

proof fn lemma_before_irreflexive<T, R: Ranking<T>>(items: Seq<T>, ranking: R, i: usize)
    ensures
        !comes_before(items, ranking, i, i),
{
    ranking.total(items[i as int], items[i as int]);
}

/// `order` lists indices in stable order.
pub open spec fn in_order<T, R: Ranking<T>>(items: Seq<T>, ranking: R, order: Seq<usize>) -> bool {
    forall|x: int, y: int|
        0 <= x < y < order.len() ==> comes_before(
            items,
            ranking,
            #[trigger] order[x],
            #[trigger] order[y],
        )
}

/// `order` holds each of the numbers below `n` once.
pub open spec fn is_permutation(order: Seq<usize>, n: nat) -> bool {
    &&& order.len() == n
    &&& forall|x: int| 0 <= x < order.len() ==> (#[trigger] order[x]) < n
    &&& forall|x: int, y: int|
        0 <= x < y < order.len() ==> #[trigger] order[x] != #[trigger] order[y]
}

/// `order` is the stable sort of `items`: a permutation of their indices, in
/// which each comes before the next.
pub open spec fn is_stable_order<T, R: Ranking<T>>(
    items: Seq<T>,
    ranking: R,
    order: Seq<usize>,
) -> bool {
    &&& is_permutation(order, items.len())
    &&& in_order(items, ranking, order)
}

/// The items at the positions that `order` lists.
pub open spec fn permuted<T>(items: Seq<T>, order: Seq<usize>) -> Seq<T> {
    Seq::new(order.len(), |i: int| items[order[i] as int])
}

/// `items` read from front to back never steps down in rank.
pub open spec fn is_ranked<T, R: Ranking<T>>(items: Seq<T>, ranking: R) -> bool {
    forall|x: int, y: int|
        0 <= x < y < items.len() ==> ranking.le(#[trigger] items[x], #[trigger] items[y])
}

/// Listing the items in their stable order ranks them.
pub proof fn lemma_stable_order_ranks<T, R: Ranking<T>>(
    items: Seq<T>,
    ranking: R,
    order: Seq<usize>,
)
    requires
        is_stable_order(items, ranking, order),
    ensures
        is_ranked(permuted(items, order), ranking),
{
    let out = permuted(items, order);
    assert forall|x: int, y: int| 0 <= x < y < out.len() implies ranking.le(
        #[trigger] out[x],
        #[trigger] out[y],
    ) by {
        assert(comes_before(items, ranking, order[x], order[y]));
        ranking.total(items[order[x] as int], items[order[y] as int]);
    }
}

/// A permutation of `n` indices lists every one of them.
pub proof fn lemma_permutation_covers(order: Seq<usize>, n: nat, i: usize)
    requires
        is_permutation(order, n),
        i < n <= usize::MAX,
    ensures
        order.contains(i),
{
    let listed = order.to_set();
    order.unique_seq_to_set();
    let below = Set::new(|k: usize| k < n);
    assert(listed.subset_of(below)) by {
        assert forall|k: usize| listed.contains(k) implies below.contains(k) by {
            let x = choose|x: int| 0 <= x < order.len() && order[x] == k;
        }
    }
    lemma_below(n, n);
    assert(below =~= Set::new(|k: usize| k < n && k < n));
    vstd::set_lib::lemma_subset_equality(listed, below);
    assert(below.contains(i));
}

proof fn lemma_below(n: nat, m: nat)
    requires
        n <= usize::MAX + 1,
        m <= n,
    ensures
        Set::new(|k: usize| k < m && k < n).finite(),
        Set::new(|k: usize| k < m && k < n).len() == m,
    decreases m,
{
    let s = Set::new(|k: usize| k < m && k < n);
    if m == 0 {
        assert(s =~= Set::empty());
    } else {
        let t = Set::new(|k: usize| k < m - 1 && k < n);
        lemma_below(n, (m - 1) as nat);
        assert(t =~= Set::new(|k: usize| k < (m - 1) as nat && k < n));
        assert(s =~= t.insert((m - 1) as usize));
    }
}

fn merge<T, R: Ranking<T>>(items: &[T], ranking: &R, left: Vec<usize>, right: Vec<usize>) -> (out:
    Vec<usize>)
    requires
        forall|x: int| 0 <= x < items@.len() ==> ranking.admits(#[trigger] items@[x]),
        in_order(items@, *ranking, left@),
        in_order(items@, *ranking, right@),
        left@.len() + right@.len() <= usize::MAX,
        forall|x: int| 0 <= x < left@.len() ==> (#[trigger] left@[x]) < items@.len(),
        forall|x: int| 0 <= x < right@.len() ==> (#[trigger] right@[x]) < items@.len(),
        forall|x: int, y: int|
            0 <= x < left@.len() && 0 <= y < right@.len() ==> #[trigger] left@[x]
                < #[trigger] right@[y],
    ensures
        in_order(items@, *ranking, out@),
        out@.len() == left@.len() + right@.len(),
        forall|x: int|
            0 <= x < out@.len() ==> left@.contains(#[trigger] out@[x]) || right@.contains(out@[x]),
{
    let mut out: Vec<usize> = Vec::new();
    let mut i: usize = 0;
    let mut j: usize = 0;
    while i < left.len() || j < right.len()
        invariant
            i <= left@.len(),
            j <= right@.len(),
            out@.len() == i + j,
            forall|x: int| 0 <= x < items@.len() ==> ranking.admits(#[trigger] items@[x]),
            in_order(items@, *ranking, left@),
            in_order(items@, *ranking, right@),
            in_order(items@, *ranking, out@),
            forall|x: int| 0 <= x < left@.len() ==> (#[trigger] left@[x]) < items@.len(),
            forall|x: int| 0 <= x < right@.len() ==> (#[trigger] right@[x]) < items@.len(),
            forall|x: int, y: int|
                0 <= x < left@.len() && 0 <= y < right@.len() ==> #[trigger] left@[x]
                    < #[trigger] right@[y],
            forall|x: int, y: int|
                0 <= x < out@.len() && i <= y < left@.len() ==> comes_before(
                    items@,
                    *ranking,
                    #[trigger] out@[x],
                    #[trigger] left@[y],
                ),
            forall|x: int, y: int|
                0 <= x < out@.len() && j <= y < right@.len() ==> comes_before(
                    items@,
                    *ranking,
                    #[trigger] out@[x],
                    #[trigger] right@[y],
                ),
            forall|x: int|
                0 <= x < out@.len() ==> left@.contains(#[trigger] out@[x]) || right@.contains(
                    out@[x],
                ),
        decreases left@.len() + right@.len() - i - j,
    {
        let from_left: bool;
        if i == left.len() {
            from_left = false;
        } else if j == right.len() {
            from_left = true;
        } else {
            let ahead = ranking.order(&items[right[j]], &items[left[i]]);
            from_left = match ahead {
                Rank::Before => false,
                Rank::Level => true,
                Rank::After => true,
            };
            proof {
                ranking.total(items@[left@[i as int] as int], items@[right@[j as int] as int]);
            }
        }
        if from_left {
            let picked: usize = left[i];
            proof {
                if j < right@.len() {
                    assert(comes_before(items@, *ranking, picked, right@[j as int]));
                    assert forall|y: int| j <= y < right@.len() implies comes_before(
                        items@,
                        *ranking,
                        picked,
                        #[trigger] right@[y],
                    ) by {
                        if y > j {
                            lemma_before_transitive(
                                items@,
                                *ranking,
                                picked,
                                right@[j as int],
                                right@[y],
                            );
                        }
                    }
                }
            }
            out.push(picked);
            i += 1;
            assert(left@.contains(picked)) by {
                assert(left@[i - 1] == picked);
            }
        } else {
            let picked: usize = right[j];
            proof {
                if i < left@.len() {
                    assert(comes_before(items@, *ranking, picked, left@[i as int]));
                    assert forall|y: int| i <= y < left@.len() implies comes_before(
                        items@,
                        *ranking,
                        picked,
                        #[trigger] left@[y],
                    ) by {
                        if y > i {
                            lemma_before_transitive(
                                items@,
                                *ranking,
                                picked,
                                left@[i as int],
                                left@[y],
                            );
                        }
                    }
                }
            }
            out.push(picked);
            j += 1;
            assert(right@.contains(picked)) by {
                assert(right@[j - 1] == picked);
            }
        }
    }
    out
}

fn sort_indices<T, R: Ranking<T>>(items: &[T], ranking: &R, start: usize, end: usize) -> (out: Vec<
    usize,
>)
    requires
        forall|x: int| 0 <= x < items@.len() ==> ranking.admits(#[trigger] items@[x]),
        start <= end <= items@.len(),
    ensures
        in_order(items@, *ranking, out@),
        out@.len() == end - start,
        forall|x: int| 0 <= x < out@.len() ==> start <= (#[trigger] out@[x]) < end,
    decreases end - start,
{
    let mut out: Vec<usize> = Vec::new();
    if end - start == 0 {
        return out;
    }
    if end - start == 1 {
        out.push(start);
        return out;
    }
    let mid: usize = start + (end - start) / 2;
    let left = sort_indices(items, ranking, start, mid);
    let right = sort_indices(items, ranking, mid, end);
    let ghost l = left@;
    let ghost r = right@;
    let out = merge(items, ranking, left, right);
    assert forall|x: int| 0 <= x < out@.len() implies start <= (#[trigger] out@[x]) < end by {
        if l.contains(out@[x]) {
            let y = choose|y: int| 0 <= y < l.len() && l[y] == out@[x];
        } else {
            let y = choose|y: int| 0 <= y < r.len() && r[y] == out@[x];
        }
    }
    out
}

/// The stable sort of `items`, as the order in which to read them.
pub fn stable_order<T, R: Ranking<T>>(items: &[T], ranking: &R) -> (order: Vec<usize>)
    requires
        forall|x: int| 0 <= x < items@.len() ==> ranking.admits(#[trigger] items@[x]),
    ensures
        is_stable_order(items@, *ranking, order@),
{
    let order = sort_indices(items, ranking, 0, items.len());
    assert forall|x: int, y: int| 0 <= x < y < order@.len() implies #[trigger] order@[x]
        != #[trigger] order@[y] by {
        lemma_before_irreflexive(items@, *ranking, order@[x]);
    }
    order
}

/// Two stable orders agree up to `n`.
proof fn lemma_orders_agree<T, R: Ranking<T>>(
    items: Seq<T>,
    ranking: R,
    a: Seq<usize>,
    b: Seq<usize>,
    n: int,
)
    requires
        is_stable_order(items, ranking, a),
        is_stable_order(items, ranking, b),
        items.len() <= usize::MAX,
        0 <= n <= a.len(),
    ensures
        forall|i: int| 0 <= i < n ==> a[i] == b[i],
    decreases n,
{
    if n > 0 {
        lemma_orders_agree(items, ranking, a, b, n - 1);
        let k = n - 1;
        if a[k] != b[k] {
            lemma_permutation_covers(a, items.len(), b[k]);
            lemma_permutation_covers(b, items.len(), a[k]);
            let x = choose|x: int| 0 <= x < a.len() && a[x] == b[k];
            let y = choose|y: int| 0 <= y < b.len() && b[y] == a[k];
            if x < k {
                assert(b[x] == a[x]);
                assert(b[x] != b[k]);
            }
            if y < k {
                assert(a[y] == b[y]);
                assert(a[y] != a[k]);
            }
            assert(comes_before(items, ranking, a[k], a[x]));
            assert(comes_before(items, ranking, b[k], b[y]));
            lemma_before_transitive(items, ranking, a[k], b[k], a[k]);
            lemma_before_irreflexive(items, ranking, a[k]);
        }
    }
}

/// There is one stable order.
pub proof fn lemma_stable_order_unique<T, R: Ranking<T>>(
    items: Seq<T>,
    ranking: R,
    a: Seq<usize>,
    b: Seq<usize>,
)
    requires
        is_stable_order(items, ranking, a),
        is_stable_order(items, ranking, b),
        items.len() <= usize::MAX,
    ensures
        a == b,
{
    lemma_orders_agree(items, ranking, a, b, a.len() as int);
    assert(a =~= b);
}

/// Reads `items` in the given order.
pub fn permute<T: Copy>(items: &[T], order: &Vec<usize>) -> (out: Vec<T>)
    requires
        is_permutation(order@, items@.len()),
    ensures
        out@ == permuted(items@, order@),
{
    let mut out: Vec<T> = Vec::new();
    let mut i: usize = 0;
    while i < order.len()
        invariant
            i <= order@.len(),
            is_permutation(order@, items@.len()),
            out@.len() == i,
            forall|k: int| 0 <= k < i ==> out@[k] == items@[order@[k] as int],
        decreases order@.len() - i,
    {
        out.push(items[order[i]]);
        i += 1;
    }
    assert(out@ =~= permuted(items@, order@));
    out
}


/// One index for each group of level items, in rank order.
pub fn distinct<T, R: Ranking<T>>(items: &[T], ranking: &R, order: &Vec<usize>) -> (picked: Vec<
    usize,
>)
    requires
        forall|x: int| 0 <= x < items@.len() ==> ranking.admits(#[trigger] items@[x]),
        is_permutation(order@, items@.len()),
        is_ranked(permuted(items@, order@), *ranking),
    ensures
        forall|x: int| 0 <= x < picked@.len() ==> (#[trigger] picked@[x]) < items@.len(),
        forall|x: int, y: int|
            0 <= x < y < picked@.len() ==> !ranking.le(
                items@[#[trigger] picked@[y] as int],
                items@[#[trigger] picked@[x] as int],
            ),
        forall|i: int|
            0 <= i < items@.len() ==> #[trigger] has_level(items@, *ranking, picked@, items@[i]),
{
    let ghost sorted = permuted(items@, order@);
    let mut picked: Vec<usize> = Vec::new();
    let mut i: usize = 0;
    while i < order.len()
        invariant
            i <= order@.len(),
            sorted == permuted(items@, order@),
            forall|x: int| 0 <= x < items@.len() ==> ranking.admits(#[trigger] items@[x]),
            is_permutation(order@, items@.len()),
            is_ranked(sorted, *ranking),
            forall|x: int| 0 <= x < picked@.len() ==> (#[trigger] picked@[x]) < items@.len(),
            forall|x: int|
                0 <= x < picked@.len() ==> exists|p: int|
                    0 <= p < i && order@[p] == #[trigger] picked@[x],
            forall|x: int, y: int|
                0 <= x < y < picked@.len() ==> !ranking.le(
                    items@[#[trigger] picked@[y] as int],
                    items@[#[trigger] picked@[x] as int],
                ),
            forall|p: int|
                0 <= p < i ==> #[trigger] has_level(items@, *ranking, picked@, sorted[p]),
        decreases order@.len() - i,
    {
        let here: usize = order[i];
        let ghost before = picked@;
        let fresh: bool = if i == 0 {
            true
        } else {
            match ranking.order(&items[order[i - 1]], &items[here]) {
                Rank::Before => true,
                Rank::Level => false,
                Rank::After => false,
            }
        };
        if fresh {
            proof {
                assert forall|x: int| 0 <= x < before.len() implies !ranking.le(
                    items@[here as int],
                    items@[#[trigger] before[x] as int],
                ) by {
                    let p = choose|p: int| 0 <= p < i && order@[p] == before[x];
                    assert(sorted[p] == items@[before[x] as int]);
                    if ranking.le(items@[here as int], items@[before[x] as int]) {
                        if p < i - 1 {
                            assert(ranking.le(sorted[p], sorted[i - 1]));
                            ranking.transitive(sorted[i as int], sorted[p], sorted[i - 1]);
                        }
                    }
                }
                ranking.total(sorted[i as int], sorted[i as int]);
            }
            picked.push(here);
            assert forall|p: int| 0 <= p < i + 1 implies #[trigger] has_level(
                items@,
                *ranking,
                picked@,
                sorted[p],
            ) by {
                if p < i {
                    assert(has_level(items@, *ranking, before, sorted[p]));
                    let x = choose|x: int|
                        0 <= x < before.len() && same_rank(
                            *ranking,
                            sorted[p],
                            items@[#[trigger] before[x] as int],
                        );
                    assert(picked@[x] == before[x]);
                } else {
                    assert(picked@[before.len() as int] == here);
                }
            }
            assert forall|x: int| 0 <= x < picked@.len() implies exists|p: int|
                0 <= p < i + 1 && order@[p] == #[trigger] picked@[x] by {
                if x < before.len() {
                    let p = choose|p: int| 0 <= p < i && order@[p] == before[x];
                    assert(order@[p] == picked@[x]);
                } else {
                    assert(order@[i as int] == picked@[x]);
                }
            }
        } else {
            proof {
                assert(ranking.le(sorted[i - 1], sorted[i as int]));
                assert(has_level(items@, *ranking, before, sorted[i - 1]));
                let x = choose|x: int|
                    0 <= x < before.len() && same_rank(
                        *ranking,
                        sorted[i - 1],
                        items@[#[trigger] before[x] as int],
                    );
                let rep = items@[before[x] as int];
                ranking.transitive(rep, sorted[i - 1], sorted[i as int]);
                ranking.transitive(sorted[i as int], sorted[i - 1], rep);
                assert(same_rank(*ranking, sorted[i as int], items@[picked@[x] as int]));
                assert(has_level(items@, *ranking, picked@, sorted[i as int]));
            }
        }
        i += 1;
    }
    assert forall|k: int| 0 <= k < items@.len() implies #[trigger] has_level(
        items@,
        *ranking,
        picked@,
        items@[k],
    ) by {
        lemma_permutation_covers(order@, items@.len(), k as usize);
        let p = choose|p: int| 0 <= p < order@.len() && order@[p] == k as usize;
        assert(sorted[p] == items@[k]);
        assert(has_level(items@, *ranking, picked@, sorted[p]));
    }
    picked
}

/// Some picked item is level with `a`.
pub open spec fn has_level<T, R: Ranking<T>>(
    items: Seq<T>,
    ranking: R,
    picked: Seq<usize>,
    a: T,
) -> bool {
    exists|x: int|
        0 <= x < picked.len() && same_rank(ranking, a, items[#[trigger] picked[x] as int])
}

/// Each ranks before the other: they are level.
pub open spec fn same_rank<T, R: Ranking<T>>(ranking: R, a: T, b: T) -> bool {
    ranking.le(a, b) && ranking.le(b, a)
}

/// A rank as std's comparisons give it.
pub fn ordering(rank: Rank) -> (r: Ordering)
    ensures
        r == (match rank {
            Rank::Before => Ordering::Less,
            Rank::Level => Ordering::Equal,
            Rank::After => Ordering::Greater,
        }),
{
    match rank {
        Rank::Before => Ordering::Less,
        Rank::Level => Ordering::Equal,
        Rank::After => Ordering::Greater,
    }
}

/// Sorts `items` in place with rayon's `par_sort_unstable_by`: the items come
/// out ranked, each of them once. Items that rank level come out in any order.
#[verifier::external_body]
pub(crate) fn par_sort<T: Send, R: Ranking<T> + Sync>(items: &mut Vec<T>, ranking: &R)
    requires
        forall|x: int| 0 <= x < old(items)@.len() ==> ranking.admits(#[trigger] old(items)@[x]),
    ensures
        is_ranked(final(items)@, *ranking),
        exists|order: Seq<usize>| #[trigger]
            is_permutation(order, old(items)@.len()) && final(items)@ == permuted(
                old(items)@,
                order,
            ),
{
    items.par_sort_unstable_by(|a, b| ordering(ranking.order(a, b)));
}

/// The sum of the numbers.
pub open spec fn total(s: Seq<nat>) -> nat
    decreases s.len(),
{
    if s.len() == 0 {
        0
    } else {
        total(s.drop_last()) + s.last()
    }
}

proof fn lemma_total_update(s: Seq<nat>, i: int)
    requires
        0 <= i < s.len(),
    ensures
        total(s.update(i, 0)) + s[i] == total(s),
    decreases s.len(),
{
    let t = s.update(i, 0);
    if i == s.len() - 1 {
        assert(t.drop_last() =~= s.drop_last());
    } else {
        lemma_total_update(s.drop_last(), i);
        assert(t.drop_last() =~= s.drop_last().update(i, 0));
    }
}

/// Numbers picked at distinct places sum to no more than all of them.
pub proof fn lemma_total_of_picked(s: Seq<nat>, picked: Seq<usize>)
    requires
        forall|x: int| 0 <= x < picked.len() ==> (#[trigger] picked[x]) < s.len(),
        forall|x: int, y: int|
            0 <= x < y < picked.len() ==> #[trigger] picked[x] != #[trigger] picked[y],
    ensures
        total(Seq::new(picked.len(), |i: int| s[picked[i] as int])) <= total(s),
    decreases picked.len(),
{
    if picked.len() > 0 {
        let at = picked.last() as int;
        let rest = picked.drop_last();
        let t = s.update(at, 0);
        lemma_total_update(s, at);
        assert forall|x: int, y: int| 0 <= x < y < rest.len() implies #[trigger] rest[x]
            != #[trigger] rest[y] by {
            assert(picked[x] != picked[y]);
        }
        assert forall|x: int| 0 <= x < rest.len() implies (#[trigger] rest[x]) < t.len() by {
            assert(picked[x] < s.len());
        }
        lemma_total_of_picked(t, rest);
        let all = Seq::new(picked.len(), |i: int| s[picked[i] as int]);
        assert(all.drop_last() =~= Seq::new(rest.len(), |i: int| t[rest[i] as int])) by {
            assert forall|i: int| 0 <= i < rest.len() implies s[picked[i] as int]
                == t[rest[i] as int] by {
                assert(picked[i] != picked[picked.len() - 1]);
            }
        }
    } else {
        assert(Seq::new(picked.len(), |i: int| s[picked[i] as int]) =~= Seq::empty());
    }
}

/// Reordering numbers does not change their sum by making it larger.
pub proof fn lemma_total_permuted(s: Seq<nat>, order: Seq<usize>)
    requires
        is_permutation(order, s.len()),
    ensures
        total(permuted(s, order)) <= total(s),
{
    lemma_total_of_picked(s, order);
    assert(permuted(s, order) =~= Seq::new(order.len(), |i: int| s[order[i] as int]));
}


pub proof fn lemma_total_step(s: Seq<nat>, i: int)
    requires
        0 <= i < s.len(),
    ensures
        total(s.take(i + 1)) == total(s.take(i)) + s[i],
{
    assert(s.take(i + 1).drop_last() =~= s.take(i));
}

pub proof fn lemma_total_prefix(s: Seq<nat>, i: int)
    requires
        0 <= i <= s.len(),
    ensures
        total(s.take(i)) <= total(s),
    decreases s.len() - i,
{
    if i < s.len() {
        lemma_total_step(s, i);
        lemma_total_prefix(s, i + 1);
    } else {
        assert(s.take(i) =~= s);
    }
}

pub proof fn lemma_total_sum(a: Seq<nat>, b: Seq<nat>, c: Seq<nat>)
    requires
        a.len() == b.len() == c.len(),
        forall|i: int| 0 <= i < a.len() ==> c[i] == a[i] + b[i],
    ensures
        total(c) == total(a) + total(b),
    decreases a.len(),
{
    if a.len() > 0 {
        lemma_total_sum(a.drop_last(), b.drop_last(), c.drop_last());
    }
}

/// Numbers of at least one sum to at least their count.
pub proof fn lemma_total_count(s: Seq<nat>)
    requires
        forall|i: int| 0 <= i < s.len() ==> s[i] >= 1,
    ensures
        total(s) >= s.len(),
    decreases s.len(),
{
    if s.len() > 0 {
        lemma_total_count(s.drop_last());
    }
}

} // verus!
