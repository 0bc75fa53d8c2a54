//! What is written of a minutes or seconds value reads back as that value,
//! to within half a unit of the last written fraction digit.
use vstd::prelude::*;
use vstd::arithmetic::div_mod::{lemma_fundamental_div_mod, lemma_mod_pos_bound};

use crate::decimal::{decimal_of, lemma_decimal_parts, DecimalV};
use crate::digits::{
    all_digits, all_zero_digits, digits_value, is_digit, is_number_text, lemma_digits_end_at,
    lemma_digits_value_concat, lemma_digits_value_leading_zeros, lemma_digits_value_zero,
    lemma_pow10_positive, pow10,
};
use crate::equality::{law_equal_values, lemma_trim_rest};
use crate::text::{
    ascii_bytes, ascii_chars, fixed_text, lemma_ascii_bytes_concat, lemma_ascii_chars_bytes,
    lemma_nat_text_value, lemma_number_parts, lemma_trim_zeros, nat_text, part_text, plain_text,
    rounded, trim_zeros, zero_digits, zero_pad, zeros,
};

verus! {

/// `d` is within half a unit of the `prec`-th fraction digit of `x`:
/// `|d - x| <= 1 / (2 * 10^prec)`.
pub open spec fn within_half_unit(d: DecimalV, x: DecimalV, prec: nat) -> bool {
    let a = d.numerator() * x.denominator();
    let b = x.numerator() * d.denominator();
    let u = d.denominator() * x.denominator();
    &&& 2 * pow10(prec) * a <= 2 * pow10(prec) * b + u
    &&& 2 * pow10(prec) * b <= 2 * pow10(prec) * a + u
}

/// Rounding to `prec` fraction digits moves the value by at most half a unit.
proof fn lemma_rounded_close(x: DecimalV, prec: nat)
    requires
        x.wf(),
    ensures
        ({
            let r = rounded(x, prec);
            let n = x.numerator() * pow10(prec);
            &&& 2 * (r * x.denominator()) <= 2 * n + x.denominator()
            &&& 2 * n <= 2 * (r * x.denominator()) + x.denominator()
        }),
{
    lemma_decimal_parts(x);
    let d = x.denominator();
    let n = x.numerator() * pow10(prec);
    let q = n / d;
    let m = n % d;
    lemma_fundamental_div_mod(n as int, d as int);
    lemma_mod_pos_bound(n as int, d as int);
    let r = rounded(x, prec);
    if r == q + 1 {
        assert(2 * m >= d);
        assert(r * d == q * d + d) by (nonlinear_arith)
            requires
                r == q + 1,
        ;
    } else {
        assert(2 * m <= d);
    }
}

/// The bytes of `n` zero padded to `w` digits.
proof fn lemma_pad_value(n: nat, w: nat)
    ensures
        all_digits(ascii_bytes(zero_pad(nat_text(n), w))),
        ascii_bytes(zero_pad(nat_text(n), w)).len() >= 1,
        ascii_bytes(zero_pad(nat_text(n), w)).len() >= w,
        digits_value(ascii_bytes(zero_pad(nat_text(n), w))) == n,
{
    lemma_nat_text_value(n);
    let t = nat_text(n);
    if t.len() < w {
        let z = zeros((w - t.len()) as nat);
        lemma_ascii_bytes_concat(z, t);
        let zb = ascii_bytes(z);
        assert(all_zero_digits(zb));
        lemma_digits_value_leading_zeros(zb, ascii_bytes(t));
        assert(all_digits(zb + ascii_bytes(t))) by {
            assert forall|j: int| 0 <= j < (zb + ascii_bytes(t)).len() implies is_digit(
                #[trigger] (zb + ascii_bytes(t))[j],
            ) by {
                if j >= zb.len() {
                    assert((zb + ascii_bytes(t))[j] == ascii_bytes(t)[j - zb.len()]);
                }
            }
        }
    }
}

/// A string of digits reads as a whole number.
proof fn lemma_whole_text(b: Seq<u8>)
    requires
        all_digits(b),
        b.len() >= 1,
    ensures
        is_number_text(b),
        decimal_of(b) == (DecimalV { integer: b, fraction: Seq::<u8>::empty() }),
{
    lemma_digits_end_at(b, 0, b.len() as int);
    assert(b.take(b.len() as int) =~= b);
}

/// The shortest text of a decimal reads back as the same value.
pub proof fn law_plain_text_exact(x: DecimalV)
    requires
        x.wf(),
    ensures
        is_number_text(ascii_bytes(plain_text(x))),
        decimal_of(ascii_bytes(plain_text(x))).numerator() * x.denominator() == x.numerator()
            * decimal_of(ascii_bytes(plain_text(x))).denominator(),
{
    let b = ascii_bytes(plain_text(x));
    let v = x.int_value();
    let ib = ascii_bytes(nat_text(v));
    lemma_nat_text_value(v);
    lemma_digits_value_zero(x.fraction);
    lemma_trim_rest(x.fraction);
    let tr = trim_zeros(x.fraction);
    if x.frac_value() == 0 {
        lemma_whole_text(b);
        lemma_trim_zeros(x.fraction, 0);
        assert(x.fraction.take(0) =~= Seq::<u8>::empty());
        lemma_trim_zeros(Seq::<u8>::empty(), 0);
        assert(Seq::<u8>::empty().take(0) =~= Seq::<u8>::empty());
    } else {
        let dot = seq!['.'];
        assert(ascii_bytes(dot) =~= seq![46u8]);
        assert(tr.len() > 0) by {
            if tr.len() == 0 {
                assert(x.fraction =~= Seq::<u8>::empty() + zero_digits(x.fraction.len()));
                assert(all_zero_digits(x.fraction));
            }
        }
        assert forall|j: int| 0 <= j < tr.len() implies is_digit(#[trigger] tr[j]) by {
            assert(tr[j] == x.fraction[j]);
        }
        assert forall|j: int| 0 <= j < tr.len() implies #[trigger] tr[j] < 128 by {
            assert(is_digit(tr[j]));
        }
        lemma_ascii_chars_bytes(tr);
        lemma_ascii_bytes_concat(nat_text(v) + dot, ascii_chars(tr));
        lemma_ascii_bytes_concat(nat_text(v), dot);
        assert(b == ib + seq![46u8] + tr);
        lemma_number_parts(ib, tr);
    }
    let d = decimal_of(b);
    law_equal_values(d, x);
    assert(d.same_value(x));
}

/// Closeness of fixed-point text: `d` written with `prec` rounded fraction
/// digits (and at least `w` integer digits) is a number text within half a
/// unit of the last written digit of `d`.
pub proof fn law_fixed_text_close(x: DecimalV, w: nat, prec: nat)
    requires
        x.wf(),
    ensures
        is_number_text(ascii_bytes(fixed_text(x, w, prec))),
        within_half_unit(decimal_of(ascii_bytes(fixed_text(x, w, prec))), x, prec),
{
    lemma_decimal_parts(x);
    lemma_pow10_positive(prec);
    let b = ascii_bytes(fixed_text(x, w, prec));
    let dot = seq!['.'];
    assert(ascii_bytes(dot) =~= seq![46u8]);
    let q = pow10(prec);
    let r = rounded(x, prec);
    let hi = r / q;
    let lo = r % q;
    lemma_fundamental_div_mod(r as int, q as int);
    lemma_mod_pos_bound(r as int, q as int);
    let hb = ascii_bytes(zero_pad(nat_text(hi), w));
    let lb = ascii_bytes(zero_pad(nat_text(lo), prec));
    lemma_pad_value(hi, w);
    lemma_pad_value(lo, prec);
    lemma_ascii_bytes_concat(zero_pad(nat_text(hi), w) + dot, zero_pad(nat_text(lo), prec));
    lemma_ascii_bytes_concat(zero_pad(nat_text(hi), w), dot);
    assert(b == hb + seq![46u8] + lb);
    lemma_number_parts(hb, lb);
    let d = decimal_of(b);
    lemma_digits_value_concat(hb, lb);
    lemma_rounded_close(x, prec);
    let xd = x.denominator();
    let xn = x.numerator();
    let dn = d.numerator();
    let dd = d.denominator();
    if prec >= 1 {
        crate::text::lemma_pad_nat(lo, prec);
        assert(lb.len() == prec);
        assert(dn == hi * q + lo);
        assert(hi * q == q * hi) by (nonlinear_arith);
        assert(dn == r);
        assert(dd == q);
        assert(2 * q * (dn * xd) <= 2 * q * (xn * dd) + dd * xd) by (nonlinear_arith)
            requires
                dn == r,
                dd == q,
                2 * (r * xd) <= 2 * (xn * q) + xd,
                q >= 1,
        ;
        assert(2 * q * (xn * dd) <= 2 * q * (dn * xd) + dd * xd) by (nonlinear_arith)
            requires
                dn == r,
                dd == q,
                2 * (xn * q) <= 2 * (r * xd) + xd,
                q >= 1,
        ;
    } else {
        assert(q == 1);
        assert(hi == r);
        assert(lo == 0);
        assert(nat_text(0) =~= seq![crate::text::digit_char(0)]);
        assert(lb =~= seq![48u8]);
        assert(digits_value(lb) == 0) by {
            assert(lb =~= Seq::<u8>::empty().push(48u8));
            crate::digits::lemma_digits_value_push(Seq::<u8>::empty(), 48u8);
        }
        assert(pow10(1) == 10) by {
            reveal_with_fuel(pow10, 2);
        }
        assert(dd == 10);
        assert(dn == r * 10);
        assert(2 * q * (dn * xd) <= 2 * q * (xn * dd) + dd * xd) by (nonlinear_arith)
            requires
                dn == r * 10,
                dd == 10,
                q == 1,
                2 * (r * xd) <= 2 * (xn * q) + xd,
        ;
        assert(2 * q * (xn * dd) <= 2 * q * (dn * xd) + dd * xd) by (nonlinear_arith)
            requires
                dn == r * 10,
                dd == 10,
                q == 1,
                2 * (xn * q) <= 2 * (r * xd) + xd,
        ;
    }
}

/// Closeness: the text written for a minutes or seconds value `x` with
/// `prec` fraction digits is a number text whose value is within half a unit
/// of the last written digit of `x`.
pub proof fn law_part_text_close(x: DecimalV, prec: nat)
    requires
        x.wf(),
    ensures
        is_number_text(ascii_bytes(part_text(x, prec))),
        within_half_unit(decimal_of(ascii_bytes(part_text(x, prec))), x, prec),
{
    reveal(part_text);
    lemma_decimal_parts(x);
    lemma_pow10_positive(prec);
    let b = ascii_bytes(part_text(x, prec));
    let dot = seq!['.'];
    assert(ascii_bytes(dot) =~= seq![46u8]);
    if x.is_integer() && x.int_value() <= 255 {
        let v = x.int_value();
        lemma_pad_value(v, 2);
        lemma_whole_text(b);
        let d = decimal_of(b);
        lemma_digits_value_zero(x.fraction);
        lemma_trim_zeros(x.fraction, 0);
        assert(x.fraction.take(0) =~= Seq::<u8>::empty());
        lemma_trim_zeros(Seq::<u8>::empty(), 0);
        assert(Seq::<u8>::empty().take(0) =~= Seq::<u8>::empty());
        law_equal_values(d, x);
        assert(d.same_value(x));
    } else if !x.at_least(60) && rounded(x, prec) >= 60 * pow10(prec) {
        law_plain_text_exact(x);
        let d = decimal_of(b);
        assert(d.numerator() * x.denominator() == x.numerator() * d.denominator());
    } else {
        law_fixed_text_close(x, 2, prec);
    }
}

} // verus!
