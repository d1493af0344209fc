//! Exact decimal numbers: a sign, a digit sequence and a power of ten.
use vstd::prelude::*;
use crate::digits::{zeros, strip_leading_zeros, ascii_of, all_digits, nat_of, pow10, lemma_push_zero, lemma_drop_last, lemma_div_pow10_step};

verus! {

/// Largest magnitude of an exponent that a `Decimal` may carry.
pub const EXPONENT_LIMIT: i64 = 4_000_000;

/// Places kept after the decimal point by truncation.
pub const KEPT_PLACES: i64 = 5;

/// Power of ten by which a timing value is rescaled.
pub const RESCALE_PLACES: i64 = 8;

/// The number `(-1)^negative * nat_of(digits) * 10^exponent`.
#[derive(Debug)]
pub struct Decimal {
    pub negative: bool,
    pub digits: Vec<u8>,
    pub exponent: i64,
}

impl Decimal {
    /// Every digit is below ten and the exponent lies within `EXPONENT_LIMIT`.
    pub open spec fn wf(&self) -> bool {
        &&& all_digits(self.digits@)
        &&& -EXPONENT_LIMIT <= self.exponent <= EXPONENT_LIMIT
    }

    /// The magnitude of the digits, ignoring sign and exponent.
    pub open spec fn mantissa(&self) -> nat {
        nat_of(self.digits@)
    }

    /// `|self| * 10^places`, truncated toward zero to an integer.
    pub open spec fn units_at(&self, places: int) -> nat {
        let k = self.exponent + places;
        if k >= 0 {
            self.mantissa() * pow10(k as nat)
        } else {
            self.mantissa() / pow10((-k) as nat)
        }
    }

    /// The number is `(-1)^negative * units / 10^places` exactly.
    pub open spec fn is_exact_at(&self, units: nat, places: nat) -> bool {
        self.exponent == -(places as int) && self.mantissa() == units
    }

    /// Well-formed, with room to raise the exponent by `RESCALE_PLACES`.
    pub open spec fn rescalable(&self) -> bool {
        self.wf() && self.exponent + RESCALE_PLACES <= EXPONENT_LIMIT
    }

    /// `self` is the timing transform of `src`: same sign, and exactly
    /// `trunc(|src| * 10^8 * 10^5) / 10^5`.
    pub open spec fn is_rescaling_of(&self, src: Decimal) -> bool {
        &&& self.wf()
        &&& self.negative == src.negative
        &&& self.is_exact_at(src.units_at(RESCALE_PLACES + KEPT_PLACES), KEPT_PLACES as nat)
    }

    /// Tests `rescalable()`.
    pub fn check_rescalable(&self) -> (r: bool)
        ensures
            r == self.rescalable(),
    {
        self.check_wf() && self.exponent <= EXPONENT_LIMIT - RESCALE_PLACES
    }

    /// Tests `wf()`.
    pub fn check_wf(&self) -> (r: bool)
        ensures
            r == self.wf(),
    {
        if self.exponent < -EXPONENT_LIMIT || self.exponent > EXPONENT_LIMIT {
            return false;
        }
        let mut i: usize = 0;
        while i < self.digits.len()
            invariant
                i <= self.digits@.len(),
                forall|k: int| 0 <= k < i ==> #[trigger] self.digits@[k] < 10,
            decreases self.digits@.len() - i,
        {
            if self.digits[i] >= 10 {
                return false;
            }
            i = i + 1;
        }
        true
    }

    /// The same number with its exponent raised by `places`, that is
    /// multiplied by `10^places`.
    pub fn shifted(&self, places: i64) -> (r: Decimal)
        requires
            self.wf(),
            0 <= places,
            self.exponent + places <= EXPONENT_LIMIT,
        ensures
            r.wf(),
            r.negative == self.negative,
            r.digits@ == self.digits@,
            r.exponent == self.exponent + places,
    {
        Decimal { negative: self.negative, digits: copy_digits(&self.digits), exponent: self.exponent + places }
    }

    /// Truncation toward zero to `KEPT_PLACES` places after the point:
    /// `trunc(self * 10^5) / 10^5`, written with exponent `-5`.
    pub fn truncated(&self) -> (r: Decimal)
        requires
            self.wf(),
        ensures
            r.wf(),
            r.negative == self.negative,
            r.is_exact_at(self.units_at(KEPT_PLACES as int), KEPT_PLACES as nat),
    {
        let k: i64 = self.exponent + KEPT_PLACES;
        let mut out = copy_digits(&self.digits);
        proof {
            assert(pow10(0) == 1);
            assert(nat_of(out@) * 1 == nat_of(out@));
            assert(nat_of(out@) / 1 == nat_of(out@));
        }
        if k >= 0 {
            let mut i: i64 = 0;
            while i < k
                invariant
                    0 <= i <= k,
                    all_digits(out@),
                    nat_of(out@) == nat_of(self.digits@) * pow10(i as nat),
                decreases k - i,
            {
                proof {
                    lemma_push_zero(out@);
                    assert(pow10((i + 1) as nat) == 10 * pow10(i as nat));
                    assert(nat_of(self.digits@) * pow10(i as nat) * 10
                        == nat_of(self.digits@) * (10 * pow10(i as nat))) by (nonlinear_arith);
                }
                out.push(0);
                i = i + 1;
            }
        } else {
            let m: i64 = -k;
            let mut i: i64 = 0;
            while i < m
                invariant
                    0 <= i <= m,
                    all_digits(out@),
                    nat_of(out@) == nat_of(self.digits@) / pow10(i as nat),
                decreases m - i,
            {
                proof {
                    lemma_div_pow10_step(nat_of(self.digits@), i as nat);
                }
                if out.len() > 0 {
                    proof {
                        lemma_drop_last(out@);
                    }
                    out.pop();
                }
                i = i + 1;
            }
        }
        Decimal { negative: self.negative, digits: out, exponent: -KEPT_PLACES }
    }

    /// The timing transform: `trunc(self * 10^8 * 10^5) / 10^5`.
    pub fn rescaled(&self) -> (r: Decimal)
        requires
            self.rescalable(),
        ensures
            r.is_rescaling_of(*self),
    {
        let s = self.shifted(RESCALE_PLACES);
        s.truncated()
    }
}

impl Decimal {
    /// Places after the decimal point in the written form.
    pub open spec fn places(&self) -> nat {
        if self.exponent < 0 {
            (-self.exponent) as nat
        } else {
            0
        }
    }

    /// The digits of `|self| * 10^places()`, with at least one digit before
    /// the last `places()`.
    pub open spec fn fixed_digits(&self) -> Seq<u8> {
        let full = if self.exponent > 0 {
            self.digits@ + zeros(self.exponent as nat)
        } else {
            self.digits@
        };
        if full.len() > self.places() {
            full
        } else {
            zeros((self.places() + 1 - full.len()) as nat) + full
        }
    }

    /// The written form, as ASCII: an optional `-`, the integer part without
    /// leading zeros, and, where the exponent is negative, a `.` and exactly
    /// `places()` fraction digits.
    pub open spec fn text(&self) -> Seq<u8> {
        let f = self.fixed_digits();
        let cut = f.len() - self.places();
        let sign = if self.negative { seq![45u8] } else { Seq::<u8>::empty() };
        let frac = if self.places() > 0 {
            seq![46u8] + ascii_of(f.subrange(cut, f.len() as int))
        } else {
            Seq::<u8>::empty()
        };
        sign + ascii_of(strip_leading_zeros(f.subrange(0, cut))) + frac
    }

    /// Writes the number as a JSON number literal.
    #[verifier::rlimit(50)]
    pub fn to_text(&self) -> (r: Vec<u8>)
        requires
            self.wf(),
        ensures
            r@ == self.text(),
    {
        let places: usize = if self.exponent < 0 { (-self.exponent) as usize } else { 0 };
        let mut full = copy_digits(&self.digits);
        if self.exponent > 0 {
            let mut i: i64 = 0;
            while i < self.exponent
                invariant
                    0 <= i <= self.exponent,
                    full@ == self.digits@ + zeros(i as nat),
                decreases self.exponent - i,
            {
                full.push(0);
                i = i + 1;
                proof {
                    assert(full@ =~= self.digits@ + zeros(i as nat));
                }
            }
        } else {
            proof {
                assert(full@ =~= self.digits@);
            }
        }
        let f: Vec<u8> = if full.len() > places {
            full
        } else {
            let pad: usize = places + 1 - full.len();
            let mut g: Vec<u8> = Vec::new();
            let mut i: usize = 0;
            while i < pad
                invariant
                    i <= pad,
                    g@ == zeros(i as nat),
                decreases pad - i,
            {
                g.push(0);
                i = i + 1;
                proof {
                    assert(g@ =~= zeros(i as nat));
                }
            }
            let mut j: usize = 0;
            while j < full.len()
                invariant
                    j <= full.len(),
                    g@ == zeros(pad as nat) + full@.subrange(0, j as int),
                decreases full.len() - j,
            {
                g.push(full[j]);
                j = j + 1;
                proof {
                    assert(g@ =~= zeros(pad as nat) + full@.subrange(0, j as int));
                }
            }
            proof {
                assert(full@.subrange(0, full.len() as int) =~= full@);
            }
            g
        };
        assert(f@ == self.fixed_digits());
        let cut: usize = f.len() - places;
        let mut start: usize = 0;
        proof {
            assert(f@.subrange(0, cut as int).subrange(0, cut as int) =~= f@.subrange(0, cut as int));
        }
        while start + 1 < cut && f[start] == 0
            invariant
                start < cut <= f.len(),
                strip_leading_zeros(f@.subrange(0, cut as int)) == strip_leading_zeros(
                    f@.subrange(start as int, cut as int),
                ),
            decreases cut - start,
        {
            proof {
                assert(f@.subrange(start as int, cut as int).drop_first() =~= f@.subrange(
                    start + 1,
                    cut as int,
                ));
            }
            start = start + 1;
        }
        proof {
            let t = f@.subrange(start as int, cut as int);
            assert(strip_leading_zeros(t) == t);
        }
        let mut out: Vec<u8> = Vec::new();
        if self.negative {
            out.push(45);
        }
        push_ascii(&mut out, &f, start, cut);
        if places > 0 {
            out.push(46);
            push_ascii(&mut out, &f, cut, f.len());
        }
        proof {
            let sign = if self.negative { seq![45u8] } else { Seq::<u8>::empty() };
            let frac = if places > 0 {
                seq![46u8] + ascii_of(f@.subrange(cut as int, f.len() as int))
            } else {
                Seq::<u8>::empty()
            };
            assert(out@ =~= sign + ascii_of(strip_leading_zeros(f@.subrange(0, cut as int))) + frac);
        }
        out
    }
}

/// Appends the ASCII digits of `f[from..to]` to `out`.
fn push_ascii(out: &mut Vec<u8>, f: &Vec<u8>, from: usize, to: usize)
    requires
        from <= to <= f@.len(),
        all_digits(f@),
    ensures
        final(out)@ == old(out)@ + ascii_of(f@.subrange(from as int, to as int)),
{
    let ghost start = out@;
    let mut j: usize = from;
    while j < to
        invariant
            from <= j <= to,
            to <= f@.len(),
            all_digits(f@),
            out@ == start + ascii_of(f@.subrange(from as int, j as int)),
        decreases to - j,
    {
        assert(f@[j as int] < 10);
        out.push(f[j] + 48);
        j = j + 1;
        proof {
            assert(out@ =~= start + ascii_of(f@.subrange(from as int, j as int)));
        }
    }
}

/// A copy of a digit vector.
pub fn copy_digits(v: &Vec<u8>) -> (r: Vec<u8>)
    ensures
        r@ == v@,
{
    let mut r: Vec<u8> = Vec::new();
    let mut i: usize = 0;
    while i < v.len()
        invariant
            i <= v.len(),
            r@ == v@.subrange(0, i as int),
        decreases v.len() - i,
    {
        r.push(v[i]);
        i = i + 1;
        proof {
            assert(r@ =~= v@.subrange(0, i as int));
        }
    }
    proof {
        assert(r@ =~= v@);
    }
    r
}

} // verus!

verus! {

/// Truncating twice is truncating once: where `once` is the truncation of
/// `d` to five places and `twice` that of `once`, the two are the same
/// number, written the same way.
pub proof fn lemma_truncation_idempotent(d: Decimal, once: Decimal, twice: Decimal)
    requires
        d.wf(),
        once.negative == d.negative,
        once.is_exact_at(d.units_at(KEPT_PLACES as int), KEPT_PLACES as nat),
        twice.negative == once.negative,
        twice.is_exact_at(once.units_at(KEPT_PLACES as int), KEPT_PLACES as nat),
    ensures
        twice.negative == once.negative,
        twice.exponent == once.exponent,
        twice.mantissa() == once.mantissa(),
{
    assert(pow10(0) == 1);
    assert(once.units_at(KEPT_PLACES as int) == once.mantissa() * pow10(0));
}

} // verus!
