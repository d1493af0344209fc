//! Decimal digit sequences, most significant digit first, and their value.
use vstd::prelude::*;
use vstd::arithmetic::div_mod::{lemma_div_denominator, lemma_div_plus_one, lemma_small_mod};

verus! {

/// `10^n`.
pub open spec fn pow10(n: nat) -> nat
    decreases n,
{
    if n == 0 {
        1
    } else {
        10 * pow10((n - 1) as nat)
    }
}

/// Every entry is a decimal digit.
pub open spec fn all_digits(s: Seq<u8>) -> bool {
    forall|i: int| 0 <= i < s.len() ==> #[trigger] s[i] < 10
}

/// The natural number that a digit sequence denotes.
pub open spec fn nat_of(s: Seq<u8>) -> nat
    decreases s.len(),
{
    if s.len() == 0 {
        0
    } else {
        nat_of(s.drop_last()) * 10 + s.last() as nat
    }
}

/// `n` zero digits.
pub open spec fn zeros(n: nat) -> Seq<u8> {
    Seq::new(n, |i: int| 0u8)
}

/// The digits without leading zeros, keeping at least one digit.
pub open spec fn strip_leading_zeros(s: Seq<u8>) -> Seq<u8>
    decreases s.len(),
{
    if s.len() > 1 && s[0] == 0 {
        strip_leading_zeros(s.drop_first())
    } else {
        s
    }
}

/// The ASCII characters of decimal digits.
pub open spec fn ascii_of(s: Seq<u8>) -> Seq<u8> {
    s.map_values(|d: u8| (d + 48) as u8)
}

pub proof fn lemma_pow10_positive(n: nat)
    ensures
        pow10(n) >= 1,
    decreases n,
{
    if n > 0 {
        lemma_pow10_positive((n - 1) as nat);
    }
}

/// Appending a zero digit multiplies the value by ten.
pub proof fn lemma_push_zero(s: Seq<u8>)
    ensures
        nat_of(s.push(0)) == nat_of(s) * 10,
{
    assert(s.push(0).drop_last() =~= s);
}

/// Dropping the last digit divides the value by ten, toward zero.
pub proof fn lemma_drop_last(s: Seq<u8>)
    requires
        s.len() > 0,
        all_digits(s),
    ensures
        nat_of(s.drop_last()) == nat_of(s) / 10,
{
    let a = nat_of(s.drop_last());
    let d = s.last() as nat;
    assert(d < 10);
    assert((a * 10 + d) / 10 == a) by (nonlinear_arith)
        requires
            d < 10,
    ;
}

/// Dividing by `10^n` and then by ten is dividing by `10^(n+1)`.
pub proof fn lemma_div_pow10_step(x: nat, n: nat)
    ensures
        (x / pow10(n)) / 10 == x / pow10(n + 1),
{
    lemma_pow10_positive(n);
    lemma_div_denominator(x as int, pow10(n) as int, 10);
    assert(pow10(n + 1) == 10 * pow10(n));
    assert(pow10(n) * 10 == 10 * pow10(n)) by (nonlinear_arith);
}

} // verus!

verus! {

/// The value of a concatenation.
pub proof fn lemma_nat_of_concat(x: Seq<u8>, y: Seq<u8>)
    ensures
        nat_of(x + y) == nat_of(x) * pow10(y.len()) + nat_of(y),
    decreases y.len(),
{
    if y.len() == 0 {
        assert(x + y =~= x);
        assert(nat_of(x) * 1 == nat_of(x));
    } else {
        let y1 = y.drop_last();
        assert((x + y).drop_last() =~= x + y1);
        assert((x + y).last() == y.last());
        lemma_nat_of_concat(x, y1);
        let a = nat_of(x);
        let p = pow10(y1.len());
        let b = nat_of(y1);
        assert(pow10(y.len()) == 10 * p);
        assert((a * p + b) * 10 + y.last() as nat == a * (10 * p) + (b * 10 + y.last() as nat))
            by (nonlinear_arith);
    }
}

/// Zero digits denote zero.
pub proof fn lemma_nat_of_zeros(m: nat)
    ensures
        nat_of(zeros(m)) == 0,
    decreases m,
{
    if m > 0 {
        assert(zeros(m).drop_last() =~= zeros((m - 1) as nat));
        lemma_nat_of_zeros((m - 1) as nat);
    }
}

/// Stripping leading zeros keeps the value, keeps at least one digit, and
/// leaves no leading zero unless the digit is alone.
pub proof fn lemma_strip_leading_zeros(s: Seq<u8>)
    requires
        s.len() >= 1,
        all_digits(s),
    ensures
        strip_leading_zeros(s).len() >= 1,
        all_digits(strip_leading_zeros(s)),
        strip_leading_zeros(s).len() == 1 || strip_leading_zeros(s)[0] != 0,
        nat_of(strip_leading_zeros(s)) == nat_of(s),
    decreases s.len(),
{
    if s.len() > 1 && s[0] == 0 {
        let rest = s.drop_first();
        lemma_strip_leading_zeros(rest);
        assert(s =~= zeros(1) + rest);
        lemma_nat_of_concat(zeros(1), rest);
        lemma_nat_of_zeros(1);
    }
}

} // verus!
