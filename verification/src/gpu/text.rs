//! Numbers in generated source.

use vstd::prelude::*;
use vstd::string::StringExecFns;

verus! {

pub open spec fn digit_text(d: nat) -> Seq<char> {
    if d == 0 {
        "0"@
    } else if d == 1 {
        "1"@
    } else if d == 2 {
        "2"@
    } else if d == 3 {
        "3"@
    } else if d == 4 {
        "4"@
    } else if d == 5 {
        "5"@
    } else if d == 6 {
        "6"@
    } else if d == 7 {
        "7"@
    } else if d == 8 {
        "8"@
    } else {
        "9"@
    }
}

/// `n` in decimal digits.
pub open spec fn decimal(n: nat) -> Seq<char>
    decreases n,
{
    if n < 10 {
        digit_text(n)
    } else {
        decimal(n / 10) + digit_text(n % 10)
    }
}

/// What a text of decimal digits is worth.
pub open spec fn worth(text: Seq<char>) -> int
    decreases text.len(),
{
    if text.len() == 0 {
        0
    } else {
        10 * worth(text.drop_last()) + (text.last() as u32 - '0' as u32)
    }
}

proof fn lemma_digit(d: nat)
    requires
        d < 10,
    ensures
        digit_text(d).len() == 1,
        digit_text(d)[0] as u32 - '0' as u32 == d,
{
    reveal_strlit("0");
    reveal_strlit("1");
    reveal_strlit("2");
    reveal_strlit("3");
    reveal_strlit("4");
    reveal_strlit("5");
    reveal_strlit("6");
    reveal_strlit("7");
    reveal_strlit("8");
    reveal_strlit("9");
}

/// The decimal digits of a number are worth the number.
pub proof fn law_digits_are_worth_the_number(n: nat)
    ensures
        worth(decimal(n)) == n,
        decimal(n).len() > 0,
    decreases n,
{
    lemma_digit(n % 10);
    if n < 10 {
        assert(decimal(n).drop_last() =~= Seq::<char>::empty());
        assert(worth(Seq::<char>::empty()) == 0);
    } else {
        law_digits_are_worth_the_number(n / 10);
        assert(decimal(n).drop_last() =~= decimal(n / 10));
    }
}

fn digit(d: usize) -> (r: &'static str)
    requires
        d < 10,
    ensures
        r@ == digit_text(d as nat),
{
    if d == 0 {
        "0"
    } else if d == 1 {
        "1"
    } else if d == 2 {
        "2"
    } else if d == 3 {
        "3"
    } else if d == 4 {
        "4"
    } else if d == 5 {
        "5"
    } else if d == 6 {
        "6"
    } else if d == 7 {
        "7"
    } else if d == 8 {
        "8"
    } else {
        "9"
    }
}

/// Appends `text`.
pub fn push_text(out: &mut String, text: &str)
    ensures
        final(out)@ == old(out)@ + text@,
{
    out.append(text);
}

/// Appends `n` in decimal digits.
pub fn push_number(out: &mut String, n: usize)
    ensures
        final(out)@ == old(out)@ + decimal(n as nat),
    decreases n,
{
    let ghost before = out@;
    if n >= 10 {
        push_number(out, n / 10);
        push_text(out, digit(n % 10));
        assert(before + decimal(n as nat / 10) + digit_text(n as nat % 10) =~= before + decimal(
            n as nat,
        ));
    } else {
        push_text(out, digit(n));
    }
}

/// Appends `text` and a number behind it.
pub fn push_named(out: &mut String, text: &str, n: usize)
    ensures
        final(out)@ == old(out)@ + (text@ + decimal(n as nat)),
{
    let ghost before = out@;
    push_text(out, text);
    push_number(out, n);
    assert(before + text@ + decimal(n as nat) =~= before + (text@ + decimal(n as nat)));
}

} // verus!
