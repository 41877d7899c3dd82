//! How many threads to use.

use crate::score::formula;
use crate::score::formula::eq_ignore_ascii_case;
use vstd::prelude::*;

verus! {

/// Threads where nothing is known of the machine.
pub const DEFAULT_THREADS: usize = 4;

/// The cores are named like this, but for case.
pub open spec fn is_named(name: Seq<char>, known: Seq<char>) -> bool {
    formula::same_folded(vstd::utf8::encode_utf8(name), vstd::utf8::encode_utf8(known))
}

/// Cores that save power.
pub open spec fn is_efficient(name: Seq<char>) -> bool {
    is_named(name, "Efficiency"@)
}

/// Cores that work gets done on.
pub open spec fn is_fast(name: Seq<char>) -> bool {
    is_named(name, "Super"@) || is_named(name, "Performance"@) || is_named(name, "Standard"@)
}

/// Fast cores of the first `n` levels; nothing where a level is not known, or
/// where there are too many to count.
pub open spec fn fast_cores(levels: Seq<Option<(String, usize)>>, n: int) -> Option<int>
    decreases n,
{
    if n <= 0 {
        Some(0)
    } else {
        match (fast_cores(levels, n - 1), levels[n - 1]) {
            (Some(total), Some((name, count))) => if is_efficient(name@) {
                Some(total)
            } else if is_fast(name@) && total + count <= usize::MAX {
                Some(total + count)
            } else {
                None
            },
            _ => None,
        }
    }
}

fn names(name: &str, known: &str) -> (r: bool)
    ensures
        r == is_named(name@, known@),
{
    eq_ignore_ascii_case(name.as_bytes(), known.as_bytes())
}

proof fn lemma_stays_unknown(levels: Seq<Option<(String, usize)>>, i: int, n: int)
    requires
        i <= n,
        fast_cores(levels, i) is None,
    ensures
        fast_cores(levels, n) is None,
    decreases n - i,
{
    if i < n {
        lemma_stays_unknown(levels, i, n - 1);
    }
}

/// A level of cores that save power adds nothing, one of cores that work gets
/// done on adds all of them, and one that is not known leaves the whole unknown.
pub proof fn law_fast_cores_are_counted(
    levels: Seq<Option<(String, usize)>>,
    level: Option<(String, usize)>,
)
    requires
        fast_cores(levels, levels.len() as int) is Some,
    ensures
        ({
            let before = fast_cores(levels, levels.len() as int)->0;
            let after = fast_cores(levels.push(level), levels.len() as int + 1);
            &&& 0 <= before
            &&& level is None ==> after is None
            &&& level matches Some((name, count)) ==> {
                &&& formula::same_folded(
                    vstd::utf8::encode_utf8(name@),
                    vstd::utf8::encode_utf8("Efficiency"@),
                ) ==> after == Some(before)
                &&& !is_efficient(name@) && (formula::same_folded(
                    vstd::utf8::encode_utf8(name@),
                    vstd::utf8::encode_utf8("Performance"@),
                ) || formula::same_folded(
                    vstd::utf8::encode_utf8(name@),
                    vstd::utf8::encode_utf8("Super"@),
                ) || formula::same_folded(
                    vstd::utf8::encode_utf8(name@),
                    vstd::utf8::encode_utf8("Standard"@),
                )) && before + count <= usize::MAX ==> after == Some(before + count)
            }
        }),
{
    lemma_same_levels(levels, levels.push(level), levels.len() as int);
}

proof fn lemma_same_levels(
    a: Seq<Option<(String, usize)>>,
    b: Seq<Option<(String, usize)>>,
    n: int,
)
    requires
        0 <= n <= a.len(),
        n <= b.len(),
        forall|i: int| 0 <= i < n ==> a[i] == b[i],
    ensures
        fast_cores(a, n) == fast_cores(b, n),
        fast_cores(a, n) matches Some(total) ==> total >= 0,
    decreases n,
{
    if n > 0 {
        lemma_same_levels(a, b, n - 1);
    }
}

/// Cores that are not there to save power, counted over the levels that the
/// machine reports; `None` where a level or its name is not known, and where
/// there are no such cores.
pub fn count_non_efficiency_cores(levels: &[Option<(String, usize)>]) -> (r: Option<usize>)
    ensures
        match fast_cores(levels@, levels@.len() as int) {
            Some(total) => if total > 0 {
                r is Some && r->0 == total
            } else {
                r is None
            },
            None => r is None,
        },
{
    let mut total: usize = 0;
    let mut i: usize = 0;
    while i < levels.len()
        invariant
            i <= levels@.len(),
            fast_cores(levels@, i as int) == Some(total as int),
        decreases levels@.len() - i,
    {
        let ghost next = fast_cores(levels@, i + 1);
        match &levels[i] {
            Some((name, count)) => {
                if names(name.as_str(), "Efficiency") {
                } else if (names(name.as_str(), "Super") || names(name.as_str(), "Performance")
                    || names(name.as_str(), "Standard")) && *count <= usize::MAX - total {
                    total = total + *count;
                } else {
                    proof {
                        lemma_stays_unknown(levels@, i + 1, levels@.len() as int);
                    }
                    return None;
                }
            },
            None => {
                proof {
                    lemma_stays_unknown(levels@, i + 1, levels@.len() as int);
                }
                return None;
            },
        }
        i += 1;
    }
    if total > 0 {
        Some(total)
    } else {
        None
    }
}

/// Threads for work in the background: half of what the machine has, to leave
/// cores for searching, but two at least.
pub fn background_threads(available: Option<usize>) -> (r: usize)
    ensures
        r == {
            let half = (match available {
                Some(n) => n as int,
                None => DEFAULT_THREADS as int,
            }) / 2;
            if half > 2 {
                half
            } else {
                2
            }
        },
        r >= 2,
        available matches Some(n) ==> (n >= 4 ==> 2 * r <= n < 2 * r + 2),
        available is None ==> r == 2,
{
    let total: usize = match available {
        Some(n) => n,
        None => DEFAULT_THREADS,
    };
    if total / 2 > 2 {
        total / 2
    } else {
        2
    }
}

/// Threads for searching: the cores that are not there to save power, else the
/// cores of the first level, else what the machine has.
pub fn search_threads(
    detected: Option<usize>,
    first_level: Option<usize>,
    available: Option<usize>,
) -> (r: usize)
    ensures
        r == if detected is Some {
            detected->0
        } else if first_level is Some && first_level->0 > 0 {
            first_level->0
        } else if available is Some {
            available->0
        } else {
            DEFAULT_THREADS
        },
        detected matches Some(n) ==> r == n,
        detected is None ==> (first_level matches Some(n) ==> (n > 0 ==> r == n)),
        detected is None && (first_level is None || first_level == Some(0usize)) ==> (
        available matches Some(n) ==> r == n),
        detected is None && first_level is None && available is None ==> r == 4,
{
    match detected {
        Some(n) => n,
        None => match first_level {
            Some(n) if n > 0 => n,
            _ => match available {
                Some(n) => n,
                None => DEFAULT_THREADS,
            },
        },
    }
}

} // verus!
