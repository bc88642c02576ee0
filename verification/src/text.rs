use vstd::prelude::*;

verus! {

/// The character of a decimal digit.
pub open spec fn digit_char(d: nat) -> char {
    ((48 + d) as u8) as char
}

/// The decimal representation of `n`, without leading zeros.
pub open spec fn decimal(n: nat) -> Seq<char>
    decreases n,
{
    if n < 10 {
        seq![digit_char(n)]
    } else {
        decimal(n / 10).push(digit_char(n % 10))
    }
}

/// Calls `String::push`; claims that the string afterwards holds its old
/// characters followed by `c`.
#[verifier::external_body]
pub(crate) fn push_char(s: &mut String, c: char)
    ensures
        final(s)@ == old(s)@.push(c),
{
    s.push(c)
}

/// Appends the decimal representation of `n`.
pub(crate) fn push_decimal(s: &mut String, n: usize)
    ensures
        final(s)@ == old(s)@ + decimal(n as nat),
    decreases n,
{
    if n >= 10 {
        push_decimal(s, n / 10);
    }
    let d: u8 = (n % 10) as u8;
    push_char(s, (48u8 + d) as char);
    proof {
        assert(old(s)@ + decimal(n as nat) =~= (old(s)@ + (if n >= 10 { decimal((n / 10) as nat) } else { seq![] })).push(digit_char((n % 10) as nat)));
    }
}

/// A decimal digit is never `$`, and different digits are different
/// characters.
pub proof fn lemma_digit_char(d: nat, e: nat)
    requires
        d < 10,
        e < 10,
    ensures
        digit_char(d) != '$',
        digit_char(d) == digit_char(e) ==> d == e,
{
    assert(digit_char(d) as u32 == 48 + d);
    assert(digit_char(e) as u32 == 48 + e);
}

/// A decimal representation holds no `$`.
pub proof fn lemma_decimal_no_dollar(n: nat)
    ensures
        forall|i: int| 0 <= i < decimal(n).len() ==> decimal(n)[i] != '$',
        decimal(n).len() >= 1,
    decreases n,
{
    lemma_digit_char(n % 10, 0);
    if n >= 10 {
        lemma_decimal_no_dollar(n / 10);
    }
}

/// Different numbers have different decimal representations.
pub proof fn lemma_decimal_injective(m: nat, n: nat)
    requires
        decimal(m) == decimal(n),
    ensures
        m == n,
    decreases n,
{
    lemma_decimal_no_dollar(m);
    lemma_decimal_no_dollar(n);
    lemma_digit_char(m % 10, n % 10);
    assert(decimal(m).last() == digit_char(m % 10));
    assert(decimal(n).last() == digit_char(n % 10));
    assert(m % 10 == n % 10);
    assert(m == (m / 10) * 10 + m % 10) by (nonlinear_arith);
    assert(n == (n / 10) * 10 + n % 10) by (nonlinear_arith);
    if m >= 10 && n >= 10 {
        assert(decimal(m / 10) =~= decimal(m).drop_last());
        assert(decimal(n / 10) =~= decimal(n).drop_last());
        lemma_decimal_injective(m / 10, n / 10);
    } else if m < 10 && n >= 10 {
        lemma_decimal_no_dollar(n / 10);
        assert(decimal(n).len() >= 2);
    } else if m >= 10 && n < 10 {
        lemma_decimal_no_dollar(m / 10);
        assert(decimal(m).len() >= 2);
    }
}

} // verus!
