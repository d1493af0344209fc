//! Reading a JSON number literal, given as ASCII bytes, as an exact decimal.
use vstd::prelude::*;
use crate::digits::{all_digits, nat_of, pow10, zeros, ascii_of, strip_leading_zeros, lemma_nat_of_concat, lemma_nat_of_zeros, lemma_strip_leading_zeros};
use crate::decimal::Decimal;

verus! {

/// Largest written exponent, and largest count of fraction digits, that a
/// literal may have to be read.
pub const WRITTEN_LIMIT: u64 = 1_000_000;

pub open spec fn is_digit_byte(b: u8) -> bool {
    48 <= b <= 57
}

/// Length of the run of ASCII digits that starts at `i`.
pub open spec fn digit_run(s: Seq<u8>, i: int) -> nat
    decreases s.len() - i,
{
    if 0 <= i < s.len() && is_digit_byte(s[i]) {
        1 + digit_run(s, i + 1)
    } else {
        0
    }
}

/// The digit values of a run of ASCII digits.
pub open spec fn digit_values(s: Seq<u8>) -> Seq<u8> {
    s.map_values(|b: u8| (b - 48) as u8)
}

/// The value of `s` read as a JSON number literal
/// (`-? (0 | [1-9][0-9]*) (. [0-9]+)? ([eE] [+-]? [0-9]+)?`), as its sign, its
/// digits (integer part then fraction) and its power of ten; `None` where `s`
/// is no such literal, or where its written exponent or its count of fraction
/// digits exceeds `WRITTEN_LIMIT`.
pub open spec fn number_value(s: Seq<u8>) -> Option<(bool, Seq<u8>, int)> {
    let neg = s.len() > 0 && s[0] == 45;
    let a: int = if neg { 1 } else { 0 };
    let n1 = digit_run(s, a) as int;
    let b = a + n1;
    let has_frac = b < s.len() && s[b] == 46;
    let n2: int = if has_frac { digit_run(s, b + 1) as int } else { 0 };
    let c = if has_frac { b + 1 + n2 } else { b };
    let has_exp = c < s.len() && (s[c] == 101 || s[c] == 69);
    let exp_neg = has_exp && c + 1 < s.len() && s[c + 1] == 45;
    let exp_signed = has_exp && c + 1 < s.len() && (s[c + 1] == 45 || s[c + 1] == 43);
    let d0 = if exp_signed { c + 2 } else { c + 1 };
    let n3: int = if has_exp { digit_run(s, d0) as int } else { 0 };
    let end = if has_exp { d0 + n3 } else { c };
    let well_formed = n1 >= 1 && (n1 == 1 || s[a] != 48) && (!has_frac || n2 >= 1) && (!has_exp
        || n3 >= 1) && end == s.len();
    let digits = if has_frac {
        digit_values(s.subrange(a, b)) + digit_values(s.subrange(b + 1, c))
    } else {
        digit_values(s.subrange(a, b))
    };
    let e_mag = if has_exp { nat_of(digit_values(s.subrange(d0, end))) as int } else { 0 };
    let e = if exp_neg { -e_mag } else { e_mag };
    if well_formed && e_mag <= WRITTEN_LIMIT && n2 <= WRITTEN_LIMIT {
        Some((neg, digits, e - n2))
    } else {
        None
    }
}

/// The end of the run of ASCII digits that starts at `i`.
fn scan_digits(s: &[u8], i: usize) -> (j: usize)
    requires
        i <= s@.len(),
    ensures
        j == i + digit_run(s@, i as int),
        j <= s@.len(),
        forall|k: int| i <= k < j ==> is_digit_byte(#[trigger] s@[k]),
{
    let mut j: usize = i;
    while j < s.len() && 48 <= s[j] && s[j] <= 57
        invariant
            i <= j <= s@.len(),
            digit_run(s@, i as int) == (j - i) + digit_run(s@, j as int),
            forall|k: int| i <= k < j ==> is_digit_byte(#[trigger] s@[k]),
        decreases s@.len() - j,
    {
        j = j + 1;
    }
    j
}

/// Appends the digit values of `s[from..to]` to `out`.
fn push_digit_values(out: &mut Vec<u8>, s: &[u8], from: usize, to: usize)
    requires
        from <= to <= s@.len(),
        forall|k: int| from <= k < to ==> is_digit_byte(#[trigger] s@[k]),
    ensures
        final(out)@ == old(out)@ + digit_values(s@.subrange(from as int, to as int)),
{
    let ghost start = out@;
    let mut j: usize = from;
    while j < to
        invariant
            from <= j <= to,
            to <= s@.len(),
            forall|k: int| from <= k < to ==> is_digit_byte(#[trigger] s@[k]),
            out@ == start + digit_values(s@.subrange(from as int, j as int)),
        decreases to - j,
    {
        assert(is_digit_byte(s@[j as int]));
        out.push(s[j] - 48);
        proof {
            assert(digit_values(s@.subrange(from as int, j + 1)) =~= digit_values(
                s@.subrange(from as int, j as int),
            ).push((s@[j as int] - 48) as u8));
        }
        j = j + 1;
        proof {
            assert(out@ =~= start + digit_values(s@.subrange(from as int, j as int)));
        }
    }
}

/// The value of the digits `s[from..to]`, capped at `WRITTEN_LIMIT + 1`.
fn capped_value(s: &[u8], from: usize, to: usize) -> (v: u64)
    requires
        from <= to <= s@.len(),
        forall|k: int| from <= k < to ==> is_digit_byte(#[trigger] s@[k]),
    ensures
        v as int == if nat_of(digit_values(s@.subrange(from as int, to as int))) <= WRITTEN_LIMIT {
            nat_of(digit_values(s@.subrange(from as int, to as int))) as int
        } else {
            WRITTEN_LIMIT + 1
        },
{
    let mut v: u64 = 0;
    let mut j: usize = from;
    proof {
        assert(digit_values(s@.subrange(from as int, from as int)) =~= Seq::<u8>::empty());
    }
    while j < to
        invariant
            from <= j <= to,
            to <= s@.len(),
            forall|k: int| from <= k < to ==> is_digit_byte(#[trigger] s@[k]),
            v as int == if nat_of(digit_values(s@.subrange(from as int, j as int))) <= WRITTEN_LIMIT {
                nat_of(digit_values(s@.subrange(from as int, j as int))) as int
            } else {
                WRITTEN_LIMIT + 1
            },
        decreases to - j,
    {
        assert(is_digit_byte(s@[j as int]));
        let ghost prev = digit_values(s@.subrange(from as int, j as int));
        let ghost next = digit_values(s@.subrange(from as int, j + 1));
        proof {
            assert(next =~= prev.push((s@[j as int] - 48) as u8));
            assert(next.drop_last() =~= prev);
        }
        let d: u64 = (s[j] - 48) as u64;
        if v > WRITTEN_LIMIT {
            proof {
                assert(nat_of(next) >= nat_of(prev) * 10) by (nonlinear_arith)
                    requires
                        nat_of(next) == nat_of(prev) * 10 + d,
                ;
            }
        } else {
            let w = v * 10 + d;
            v = if w > WRITTEN_LIMIT { WRITTEN_LIMIT + 1 } else { w };
        }
        j = j + 1;
    }
    v
}

/// Reads `s` as a JSON number literal: `None` exactly where `number_value`
/// gives none, else the decimal that the literal writes.
#[verifier::rlimit(40)]
pub fn parse_number(s: &[u8]) -> (r: Option<Decimal>)
    ensures
        r is None <==> number_value(s@) is None,
        r matches Some(d) ==> d.rescalable() && number_value(s@) == Some((d.negative, d.digits@, d.exponent as int)),
{
    let len = s.len();
    let neg = len > 0 && s[0] == 45;
    let a: usize = if neg { 1 } else { 0 };
    let b = scan_digits(s, a);
    let n1 = b - a;
    let has_frac = b < len && s[b] == 46;
    let c = if has_frac { scan_digits(s, b + 1) } else { b };
    let n2: usize = if has_frac { c - b - 1 } else { 0 };
    let has_exp = c < len && (s[c] == 101 || s[c] == 69);
    let exp_neg = has_exp && c + 1 < len && s[c + 1] == 45;
    let exp_signed = has_exp && c + 1 < len && (s[c + 1] == 45 || s[c + 1] == 43);
    let d0: usize = if !has_exp { c } else if exp_signed { c + 2 } else { c + 1 };
    let end = if has_exp { scan_digits(s, d0) } else { c };
    let n3 = end - d0;
    proof {
        let sv = s@;
        assert(neg == (sv.len() > 0 && sv[0] == 45));
        assert(n1 == digit_run(sv, a as int));
        assert(has_frac == (b < sv.len() && sv[b as int] == 46));
        assert(has_frac ==> n2 == digit_run(sv, b + 1));
        assert(has_exp == (c < sv.len() && (sv[c as int] == 101 || sv[c as int] == 69)));
        assert(has_exp ==> n3 == digit_run(sv, d0 as int));
    }
    if n1 == 0 || (n1 > 1 && s[a] == 48) || (has_frac && n2 == 0) || (has_exp && n3 == 0) || end != len {
        return None;
    }
    let e_mag: u64 = if has_exp { capped_value(s, d0, end) } else { 0 };
    if e_mag > WRITTEN_LIMIT || n2 as u64 > WRITTEN_LIMIT {
        return None;
    }
    let mut digits: Vec<u8> = Vec::new();
    push_digit_values(&mut digits, s, a, b);
    if has_frac {
        push_digit_values(&mut digits, s, b + 1, c);
    }
    let e: i64 = if exp_neg { -(e_mag as i64) } else { e_mag as i64 };
    let d = Decimal { negative: neg, digits, exponent: e - n2 as i64 };
    proof {
        assert(digits@ =~= number_value(s@).unwrap().1);
    }
    Some(d)
}

} // verus!

verus! {

/// A run of `n` digits at `i`, followed by a non-digit or the end, has length `n`.
proof fn lemma_digit_run(s: Seq<u8>, i: int, n: int)
    requires
        0 <= i,
        0 <= n,
        i + n <= s.len(),
        forall|k: int| i <= k < i + n ==> is_digit_byte(#[trigger] s[k]),
        i + n == s.len() || !is_digit_byte(s[i + n]),
    ensures
        digit_run(s, i) == n,
    decreases n,
{
    if n > 0 {
        lemma_digit_run(s, i + 1, n - 1);
    }
}

proof fn lemma_digit_values_of_ascii(x: Seq<u8>)
    requires
        all_digits(x),
    ensures
        digit_values(ascii_of(x)) =~= x,
        forall|k: int| 0 <= k < x.len() ==> is_digit_byte(#[trigger] ascii_of(x)[k]),
{
    assert forall|k: int| 0 <= k < x.len() implies digit_values(ascii_of(x))[k] == x[k] by {
        assert(x[k] < 10);
    }
    assert forall|k: int| 0 <= k < x.len() implies is_digit_byte(#[trigger] ascii_of(x)[k]) by {
        assert(x[k] < 10);
    }
}

/// The fixed digits of a decimal are digits, more than its places, and
/// denote `|d| * 10^places`.
proof fn lemma_fixed_digits(d: Decimal)
    requires
        d.wf(),
    ensures
        all_digits(d.fixed_digits()),
        d.fixed_digits().len() > d.places(),
        nat_of(d.fixed_digits()) == d.units_at(d.places() as int),
{
    let f = d.fixed_digits();
    let p = d.places();
    let full = if d.exponent > 0 {
        d.digits@ + zeros(d.exponent as nat)
    } else {
        d.digits@
    };
    lemma_nat_of_zeros(if d.exponent > 0 { d.exponent as nat } else { 0 });
    if d.exponent > 0 {
        lemma_nat_of_concat(d.digits@, zeros(d.exponent as nat));
    } else {
        assert(pow10(0) == 1);
        assert(d.mantissa() * 1 == d.mantissa());
    }
    assert(nat_of(full) == d.units_at(p as int));
    assert(all_digits(full)) by {
        assert forall|k: int| 0 <= k < full.len() implies #[trigger] full[k] < 10 by {
            if k < d.digits@.len() {
                assert(d.digits@[k] < 10);
            }
        }
    }
    if full.len() <= p {
        let m = (p + 1 - full.len()) as nat;
        lemma_nat_of_concat(zeros(m), full);
        lemma_nat_of_zeros(m);
        assert forall|k: int| 0 <= k < f.len() implies #[trigger] f[k] < 10 by {
            if k >= m {
                assert(f[k] == full[k - m]);
            }
        }
    }
}

/// A literal without an exponent, put together from its parts, is read
/// back as those parts: an optional `-`, integer digits `st` without a
/// leading zero, and, where `tail` is not empty, `.` and the fraction digits
/// `tail`, denote sign `neg`, digits `st + tail` and exponent `-|tail|`.
#[verifier::rlimit(50)]
pub proof fn lemma_read_layout(neg: bool, st: Seq<u8>, tail: Seq<u8>)
    requires
        st.len() >= 1,
        all_digits(st),
        all_digits(tail),
        st.len() == 1 || st[0] != 0,
        tail.len() <= WRITTEN_LIMIT,
    ensures
        number_value(
            (if neg { seq![45u8] } else { Seq::<u8>::empty() }) + ascii_of(st) + (if tail.len() > 0 {
                seq![46u8] + ascii_of(tail)
            } else {
                Seq::<u8>::empty()
            }),
        ) == Some((neg, st + tail, -(tail.len() as int))),
{
    let p = tail.len();
    lemma_digit_values_of_ascii(st);
    lemma_digit_values_of_ascii(tail);
    let sign = if neg { seq![45u8] } else { Seq::<u8>::empty() };
    let int_text = ascii_of(st);
    let frac = if p > 0 { seq![46u8] + ascii_of(tail) } else { Seq::<u8>::empty() };
    let t = sign + int_text + frac;
    let a = sign.len() as int;
    let b = a + int_text.len();
    assert(t.subrange(a, b) =~= int_text);
    assert(forall|k: int| a <= k < b ==> is_digit_byte(#[trigger] t[k])) by {
        assert forall|k: int| a <= k < b implies is_digit_byte(#[trigger] t[k]) by {
            assert(t[k] == int_text[k - a]);
        }
    }
    assert(t[a] == int_text[0]);
    assert(st[0] < 10);
    if neg {
        assert(t[0] == 45);
    } else {
        assert(t[0] == int_text[0]);
    }
    if p > 0 {
        assert(t[b] == 46);
        lemma_digit_run(t, a, b - a);
        let c = b + 1 + p;
        assert(c == t.len());
        assert(t.subrange(b + 1, c) =~= ascii_of(tail));
        assert(forall|k: int| b + 1 <= k < c ==> is_digit_byte(#[trigger] t[k])) by {
            assert forall|k: int| b + 1 <= k < c implies is_digit_byte(#[trigger] t[k]) by {
                assert(t[k] == ascii_of(tail)[k - b - 1]);
            }
        }
        lemma_digit_run(t, b + 1, p as int);
        assert(digit_values(t.subrange(a, b)) + digit_values(t.subrange(b + 1, c)) =~= st + tail);
    } else {
        assert(b == t.len());
        lemma_digit_run(t, a, b - a);
        assert(st + tail =~= st);
        assert(digit_values(t.subrange(a, b)) =~= st + tail);
    }
}

/// Reading back the written form of a number gives the same number: the same
/// sign, and `|d|` as `nat_of(digits) / 10^places`, wherever the written form
/// has at most `WRITTEN_LIMIT` fraction digits.
pub proof fn lemma_text_round_trip(d: Decimal)
    requires
        d.wf(),
        d.exponent >= -(WRITTEN_LIMIT as int),
    ensures
        number_value(d.text()) matches Some((neg, g, e)) && neg == d.negative && e == -(
        d.places() as int) && nat_of(g) == d.units_at(d.places() as int),
{
    let f = d.fixed_digits();
    let p = d.places();
    let cut = f.len() - p;
    lemma_fixed_digits(d);
    let head = f.subrange(0, cut as int);
    let tail = f.subrange(cut as int, f.len() as int);
    assert(head + tail =~= f);
    lemma_nat_of_concat(head, tail);
    assert(all_digits(head));
    assert(all_digits(tail));
    lemma_strip_leading_zeros(head);
    let st = strip_leading_zeros(head);
    lemma_nat_of_concat(st, tail);
    lemma_read_layout(d.negative, st, tail);
}

/// Writing, reading back and writing again gives the same text: where `back`
/// is what `number_value` reads from `d.text()`, `back.text() == d.text()`.
pub proof fn lemma_text_fixed_point(d: Decimal, back: Decimal)
    requires
        d.wf(),
        d.exponent >= -(WRITTEN_LIMIT as int),
        number_value(d.text()) == Some((back.negative, back.digits@, back.exponent as int)),
    ensures
        back.text() == d.text(),
{
    let f = d.fixed_digits();
    let p = d.places();
    let cut = f.len() - p;
    lemma_fixed_digits(d);
    let head = f.subrange(0, cut as int);
    let tail = f.subrange(cut as int, f.len() as int);
    assert(all_digits(head));
    assert(all_digits(tail));
    lemma_strip_leading_zeros(head);
    let st = strip_leading_zeros(head);
    lemma_read_layout(d.negative, st, tail);
    assert(back.digits@ == st + tail);
    assert(back.exponent == -(p as int));
    assert(back.places() == p);
    let f2 = back.fixed_digits();
    assert(f2 == st + tail);
    assert(f2.subrange(0, st.len() as int) =~= st);
    assert(f2.subrange(st.len() as int, f2.len() as int) =~= tail);
    assert(strip_leading_zeros(st) == st);
}

} // verus!
