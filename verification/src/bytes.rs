//! Byte strings: lexicographic order, equality and little-endian integers.

use vstd::prelude::*;

verus! {

/// Where one value stands towards another in some order.
#[derive(Clone, Copy, Debug, PartialEq, Eq, Structural)]
pub enum Rank {
    Before,
    Level,
    After,
}

/// `a` comes before `b`, or equals it, in the lexicographic order of bytes.
pub open spec fn lex_le(a: Seq<u8>, b: Seq<u8>) -> bool
    decreases a.len(),
{
    if a.len() == 0 {
        true
    } else if b.len() == 0 {
        false
    } else if a[0] != b[0] {
        a[0] < b[0]
    } else {
        lex_le(a.drop_first(), b.drop_first())
    }
}

/// Any two byte strings are comparable.
pub proof fn lemma_lex_total(a: Seq<u8>, b: Seq<u8>)
    ensures
        lex_le(a, b) || lex_le(b, a),
    decreases a.len(),
{
    if a.len() > 0 && b.len() > 0 && a[0] == b[0] {
        lemma_lex_total(a.drop_first(), b.drop_first());
    }
}

pub proof fn lemma_lex_reflexive(a: Seq<u8>)
    ensures
        lex_le(a, a),
    decreases a.len(),
{
    if a.len() > 0 {
        lemma_lex_reflexive(a.drop_first());
    }
}

/// Only equal byte strings come before each other both ways.
pub proof fn lemma_lex_antisymmetric(a: Seq<u8>, b: Seq<u8>)
    requires
        lex_le(a, b),
        lex_le(b, a),
    ensures
        a == b,
    decreases a.len(),
{
    if a.len() == 0 || b.len() == 0 {
        assert(a =~= b);
    } else {
        lemma_lex_antisymmetric(a.drop_first(), b.drop_first());
        assert(a =~= seq![a[0]] + a.drop_first());
        assert(b =~= seq![b[0]] + b.drop_first());
    }
}

pub proof fn lemma_lex_transitive(a: Seq<u8>, b: Seq<u8>, c: Seq<u8>)
    requires
        lex_le(a, b),
        lex_le(b, c),
    ensures
        lex_le(a, c),
    decreases a.len(),
{
    if a.len() > 0 && b.len() > 0 && c.len() > 0 && a[0] == b[0] && b[0] == c[0] {
        lemma_lex_transitive(a.drop_first(), b.drop_first(), c.drop_first());
    }
}

/// Removing a common prefix does not change the order of two byte strings.
proof fn lemma_lex_skip_common(a: Seq<u8>, b: Seq<u8>, n: int)
    requires
        0 <= n <= a.len(),
        n <= b.len(),
        forall|i: int| 0 <= i < n ==> a[i] == b[i],
    ensures
        lex_le(a, b) == lex_le(a.skip(n), b.skip(n)),
    decreases n,
{
    if n == 0 {
        assert(a.skip(0) =~= a);
        assert(b.skip(0) =~= b);
    } else {
        let a1 = a.drop_first();
        let b1 = b.drop_first();
        assert forall|i: int| 0 <= i < n - 1 implies a1[i] == b1[i] by {
            assert(a1[i] == a[i + 1] && b1[i] == b[i + 1]);
        }
        lemma_lex_skip_common(a1, b1, n - 1);
        assert(a1.skip(n - 1) =~= a.skip(n));
        assert(b1.skip(n - 1) =~= b.skip(n));
    }
}

/// The first byte that differs decides, and a text comes before all that go on
/// behind it.
pub proof fn law_first_difference_decides(front: Seq<u8>, a: Seq<u8>, b: Seq<u8>)
    ensures
        a.len() > 0 && b.len() > 0 && a[0] < b[0] ==> lex_le(front + a, front + b) && !lex_le(
            front + b,
            front + a,
        ),
        lex_le(front, front + a),
        a.len() > 0 ==> !lex_le(front + a, front),
{
    let n = front.len() as int;
    lemma_lex_skip_common(front + a, front + b, n);
    lemma_lex_skip_common(front + b, front + a, n);
    lemma_lex_skip_common(front, front + a, n);
    lemma_lex_skip_common(front + a, front, n);
    assert((front + a).skip(n) =~= a);
    assert((front + b).skip(n) =~= b);
    assert(front.skip(n) =~= Seq::<u8>::empty());
}

/// The order of two byte strings, decided at the first byte that differs.
pub fn lex_order(a: &[u8], b: &[u8]) -> (r: Rank)
    ensures
        r == Rank::Before <==> lex_le(a@, b@) && a@ != b@,
        r == Rank::Level <==> a@ == b@,
        r == Rank::After <==> lex_le(b@, a@) && a@ != b@,
{
    let mut i: usize = 0;
    while i < a.len() && i < b.len() && a[i] == b[i]
        invariant
            i <= a@.len(),
            i <= b@.len(),
            forall|k: int| 0 <= k < i ==> a@[k] == b@[k],
        decreases a@.len() - i,
    {
        i += 1;
    }
    proof {
        lemma_lex_skip_common(a@, b@, i as int);
        lemma_lex_skip_common(b@, a@, i as int);
        if lex_le(a@, b@) && lex_le(b@, a@) {
            lemma_lex_antisymmetric(a@, b@);
        }
        lemma_lex_reflexive(a@);
    }
    if i == a.len() && i == b.len() {
        assert(a@ =~= b@);
        Rank::Level
    } else if i == a.len() {
        Rank::Before
    } else if i == b.len() {
        Rank::After
    } else if a[i] < b[i] {
        assert(a@.skip(i as int)[0] == a@[i as int]);
        assert(b@.skip(i as int)[0] == b@[i as int]);
        Rank::Before
    } else {
        assert(a@.skip(i as int)[0] == a@[i as int]);
        assert(b@.skip(i as int)[0] == b@[i as int]);
        Rank::After
    }
}

/// Whether two byte strings are equal.
pub fn same_bytes(a: &[u8], b: &[u8]) -> (r: bool)
    ensures
        r == (a@ == b@),
{
    if a.len() != b.len() {
        return false;
    }
    let mut i: usize = 0;
    while i < a.len()
        invariant
            i <= a@.len(),
            a@.len() == b@.len(),
            forall|k: int| 0 <= k < i ==> a@[k] == b@[k],
        decreases a@.len() - i,
    {
        if a[i] != b[i] {
            return false;
        }
        i += 1;
    }
    assert(a@ =~= b@);
    true
}

/// The integer that `s` encodes, least significant byte first.
pub open spec fn le_value(s: Seq<u8>) -> nat
    decreases s.len(),
{
    if s.len() == 0 {
        0
    } else {
        s[0] as nat + 256 * le_value(s.drop_first())
    }
}

/// The `n` low bytes of `x`, least significant byte first.
pub open spec fn le_bytes(x: nat, n: nat) -> Seq<u8>
    decreases n,
{
    if n == 0 {
        Seq::empty()
    } else {
        seq![(x % 256) as u8] + le_bytes(x / 256, (n - 1) as nat)
    }
}

/// 256 to the power of `n`.
pub open spec fn le_limit(n: nat) -> nat
    decreases n,
{
    if n == 0 {
        1
    } else {
        256 * le_limit((n - 1) as nat)
    }
}

pub proof fn lemma_le_limits()
    ensures
        le_limit(1) == 0x100,
        le_limit(2) == 0x1_0000,
        le_limit(4) == 0x1_0000_0000,
        le_limit(8) == 0x1_0000_0000_0000_0000,
        le_limit(16) == 0x1_0000_0000_0000_0000_0000_0000_0000_0000,
{
    reveal_with_fuel(le_limit, 17);
}

pub proof fn lemma_le_bytes_len(x: nat, n: nat)
    ensures
        le_bytes(x, n).len() == n,
    decreases n,
{
    if n > 0 {
        lemma_le_bytes_len(x / 256, (n - 1) as nat);
    }
}

/// Reading back the bytes of an integer that fits gives the integer.
pub proof fn lemma_le_round_trip(x: nat, n: nat)
    requires
        x < le_limit(n),
    ensures
        le_value(le_bytes(x, n)) == x,
    decreases n,
{
    if n > 0 {
        let rest = le_bytes(x / 256, (n - 1) as nat);
        assert(x / 256 < le_limit((n - 1) as nat));
        lemma_le_round_trip(x / 256, (n - 1) as nat);
        assert(le_bytes(x, n).drop_first() =~= rest);
    }
}

pub proof fn lemma_le_value_bound(s: Seq<u8>)
    ensures
        le_value(s) < le_limit(s.len()),
    decreases s.len(),
{
    if s.len() > 0 {
        lemma_le_value_bound(s.drop_first());
    }
}

/// The byte in front counts once, and each byte behind it two hundred and
/// fifty-six times what the one in front of it does.
pub proof fn law_first_byte_counts_least(s: Seq<u8>, b: u8)
    ensures
        le_value(seq![b]) == b,
        le_value(seq![b] + s) == b + 256 * le_value(s),
        le_value(s.push(b)) == le_value(s) + b * le_limit(s.len()),
    decreases s.len(),
{
    assert((seq![b] + s).drop_first() =~= s);
    assert(seq![b].drop_first() =~= Seq::<u8>::empty());
    assert(le_value(Seq::<u8>::empty()) == 0);
    if s.len() > 0 {
        law_first_byte_counts_least(s.drop_first(), b);
        assert(s.push(b).drop_first() =~= s.drop_first().push(b));
        let l = le_limit((s.len() - 1) as nat);
        assert(256 * (b * l) == b * (256 * l)) by (nonlinear_arith);
    } else {
        assert(s.push(b) =~= seq![b]);
        assert(s =~= Seq::<u8>::empty());
        assert(b * le_limit(0) == b) by (nonlinear_arith)
            requires
                le_limit(0) == 1,
        ;
    }
}

/// Byte strings of one length that encode the same integer are equal.
pub proof fn lemma_le_value_injective(a: Seq<u8>, b: Seq<u8>)
    requires
        a.len() == b.len(),
        le_value(a) == le_value(b),
    ensures
        a == b,
    decreases a.len(),
{
    if a.len() == 0 {
        assert(a =~= b);
    } else {
        assert(a[0] == b[0]);
        lemma_le_value_injective(a.drop_first(), b.drop_first());
        assert(a =~= seq![a[0]] + a.drop_first());
        assert(b =~= seq![b[0]] + b.drop_first());
    }
}

/// The integer encoded by at most eight bytes.
pub fn read_le(s: &[u8]) -> (r: u64)
    requires
        s@.len() <= 8,
    ensures
        r == le_value(s@),
        r < le_limit(s@.len()),
{
    let mut i: usize = s.len();
    let mut value: u64 = 0;
    assert(s@.skip(i as int) =~= Seq::empty());
    proof {
        lemma_le_value_bound(s@);
    }
    while i > 0
        invariant
            i <= s@.len() <= 8,
            value == le_value(s@.skip(i as int)),
        decreases i,
    {
        i -= 1;
        let ghost tail = s@.skip(i as int);
        assert(tail.drop_first() =~= s@.skip(i + 1));
        proof {
            lemma_le_value_bound(tail);
            lemma_le_limits();
            assert(tail.len() <= 8);
            lemma_le_limit_monotone(tail.len(), 8);
        }
        value = value * 256 + s[i] as u64;
    }
    assert(s@.skip(0) =~= s@);
    value
}

pub proof fn lemma_le_limit_monotone(a: nat, b: nat)
    requires
        a <= b,
    ensures
        le_limit(a) <= le_limit(b),
    decreases b,
{
    if a < b {
        lemma_le_limit_monotone(a, (b - 1) as nat);
    }
}

/// Appends the `n` low bytes of `x` to `buf`.
pub fn push_le(buf: &mut Vec<u8>, x: u64, n: usize)
    ensures
        final(buf)@ == old(buf)@ + le_bytes(x as nat, n as nat),
{
    let ghost before = buf@;
    let mut rest: u64 = x;
    let mut i: usize = 0;
    assert(before + le_bytes(x as nat, n as nat) =~= buf@ + le_bytes(x as nat, n as nat));
    while i < n
        invariant
            i <= n,
            before + le_bytes(x as nat, n as nat) == buf@ + le_bytes(rest as nat, (n - i) as nat),
        decreases n - i,
    {
        let ghost left = buf@;
        buf.push((rest % 256) as u8);
        assert(le_bytes(rest as nat, (n - i) as nat) == seq![(rest % 256) as u8] + le_bytes(
            (rest / 256) as nat,
            (n - i - 1) as nat,
        ));
        assert(left + (seq![(rest % 256) as u8] + le_bytes((rest / 256) as nat, (n - i - 1) as nat))
            =~= buf@ + le_bytes((rest / 256) as nat, (n - i - 1) as nat));
        rest = rest / 256;
        i += 1;
    }
    assert(buf@ + le_bytes(rest as nat, 0) =~= buf@);
}

/// Position just after the last `/` of `s`, or 0 where there is none.
pub open spec fn after_last_slash(s: Seq<u8>) -> int
    decreases s.len(),
{
    if s.len() == 0 {
        0
    } else if s.last() == 0x2f {
        s.len() as int
    } else {
        after_last_slash(s.drop_last())
    }
}

/// What pins [`after_last_slash`] down: it follows a `/` (or is 0), and no `/`
/// stands at it or behind it.
pub proof fn lemma_after_last_slash(s: Seq<u8>)
    ensures
        0 <= after_last_slash(s) <= s.len(),
        after_last_slash(s) > 0 ==> s[after_last_slash(s) - 1] == 0x2f,
        forall|i: int| after_last_slash(s) <= i < s.len() ==> s[i] != 0x2f,
    decreases s.len(),
{
    if s.len() > 0 && s.last() != 0x2f {
        lemma_after_last_slash(s.drop_last());
        assert forall|i: int| after_last_slash(s) <= i < s.len() implies s[i] != 0x2f by {
            if i < s.len() - 1 {
                assert(s.drop_last()[i] == s[i]);
            }
        }
    }
}

/// Position just after the last `/` among the first `end` bytes of `s`.
pub fn slash_before(s: &[u8], end: usize) -> (r: usize)
    requires
        end <= s@.len(),
    ensures
        r == after_last_slash(s@.take(end as int)),
        r <= end,
{
    let mut i: usize = end;
    while i > 0 && s[i - 1] != 0x2f
        invariant
            i <= end <= s@.len(),
            after_last_slash(s@.take(end as int)) == after_last_slash(s@.take(i as int)),
        decreases i,
    {
        assert(s@.take(i as int).drop_last() =~= s@.take(i - 1));
        i -= 1;
    }
    i
}


/// Behind an ASCII byte of UTF-8 text a character starts, or the text ends.
pub proof fn lemma_boundary_after_ascii(s: Seq<u8>, i: int)
    requires
        vstd::utf8::valid_utf8(s),
        0 <= i < s.len(),
        s[i] < 0x80,
    ensures
        vstd::utf8::is_char_boundary(s, i + 1),
    decreases s.len(),
{
    let n = vstd::utf8::length_of_first_scalar(s);
    let rest = vstd::utf8::pop_first_scalar(s);
    if i < n {
        assert(i == 0);
        assert(n == 1);
        assert(vstd::utf8::is_char_boundary(rest, 0));
    } else {
        lemma_boundary_after_ascii(rest, i - n);
    }
}

/// UTF-8 text cut behind a `/`, or not at all, leaves UTF-8 text on both sides.
pub proof fn lemma_cut_text(s: Seq<u8>, k: int)
    requires
        vstd::utf8::valid_utf8(s),
        is_cut(s, k),
    ensures
        vstd::utf8::is_char_boundary(s, k),
        vstd::utf8::valid_utf8(s.take(k)),
        vstd::utf8::valid_utf8(s.skip(k)),
{
    if k > 0 {
        lemma_boundary_after_ascii(s, k - 1);
    } else {
        vstd::utf8::is_char_boundary_start_end_of_seq(s);
    }
    vstd::utf8::valid_utf8_split(s, k);
    assert(s.take(k) =~= s.subrange(0, k));
    assert(s.skip(k) =~= s.subrange(k, s.len() as int));
}

/// A directory of path `s` ends at `k`: just behind a `/`, or at the root.
pub open spec fn is_cut(s: Seq<u8>, k: int) -> bool {
    0 <= k <= s.len() && (k == 0 || s[k - 1] == 0x2f)
}

/// How many `/` the first `k` bytes of `s` hold.
pub open spec fn slash_count(s: Seq<u8>, k: int) -> nat
    decreases k,
{
    if k <= 0 {
        0
    } else if s[k - 1] == 0x2f {
        slash_count(s, k - 1) + 1
    } else {
        slash_count(s, k - 1)
    }
}

pub proof fn lemma_slash_count_between(s: Seq<u8>, from: int, to: int)
    requires
        0 <= from <= to <= s.len(),
        forall|i: int| from <= i < to ==> s[i] != 0x2f,
    ensures
        slash_count(s, from) == slash_count(s, to),
    decreases to,
{
    if from < to {
        lemma_slash_count_between(s, from, to - 1);
    }
}

} // verus!
