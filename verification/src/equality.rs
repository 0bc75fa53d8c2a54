//! Decimals are equal when their values are: `40.50` equals `040.5`.
use vstd::prelude::*;
use vstd::slice::slice_subrange;
use vstd::std_specs::cmp::{PartialEqSpec, PartialEqSpecImpl};

use vstd::arithmetic::div_mod::lemma_fundamental_div_mod_converse;

use crate::decimal::{lemma_decimal_parts, Decimal, DecimalV};
use crate::digits::{
    all_digits, all_zero_digits, digits_value, is_digit, lemma_digits_eq,
    lemma_digits_value_concat, lemma_digits_value_leading_zeros, lemma_pow10_add,
    lemma_pow10_positive, pow10,
};
use crate::text::{
    ascii_bytes, lemma_ascii_chars_bytes, lemma_nat_text_digits, lemma_trim_zeros,
    lemma_zero_digits, trim_zeros, zero_digits,
};

verus! {

impl DecimalV {
    /// The two decimals have the same value: the same whole part, and the
    /// same fraction digits once trailing zeros are dropped.
    pub open spec fn same_value(self, other: DecimalV) -> bool {
        &&& self.int_value() == other.int_value()
        &&& trim_zeros(self.fraction) == trim_zeros(other.fraction)
    }
}

/// A digit string is its digits up to the last non-zero one, then zeros.
pub proof fn lemma_trim_rest(s: Seq<u8>)
    ensures
        trim_zeros(s).len() <= s.len(),
        s == trim_zeros(s) + zero_digits((s.len() - trim_zeros(s).len()) as nat),
        trim_zeros(s).len() > 0 ==> trim_zeros(s).last() != 48,
        trim_zeros(trim_zeros(s)) == trim_zeros(s),
    decreases s.len(),
{
    if s.len() > 0 && s.last() == 48 {
        let s2 = s.drop_last();
        lemma_trim_rest(s2);
        let t = trim_zeros(s2);
        assert(trim_zeros(s) == t);
        let k = (s2.len() - t.len()) as nat;
        assert(s =~= s2.push(48u8));
        assert(zero_digits(k + 1) =~= zero_digits(k).push(48u8));
        assert(s =~= t + zero_digits(k + 1));
    } else {
        assert(s =~= s + zero_digits(0));
        lemma_trim_zeros(s, s.len() as int);
        assert(s.take(s.len() as int) =~= s);
    }
}

/// Zeros after the last digit do not change the trimmed digits.
proof fn lemma_trim_pad(s: Seq<u8>, k: nat)
    ensures
        trim_zeros(s + zero_digits(k)) == trim_zeros(s),
    decreases k,
{
    if k > 0 {
        let p = s + zero_digits(k);
        assert(p.last() == 48);
        assert(p.drop_last() =~= s + zero_digits((k - 1) as nat));
        lemma_trim_pad(s, (k - 1) as nat);
    } else {
        assert(s + zero_digits(0) =~= s);
    }
}

/// The law for `a` with no more fraction digits than `b`.
proof fn lemma_equal_values_le(a: DecimalV, b: DecimalV)
    requires
        a.wf(),
        b.wf(),
        a.fraction.len() <= b.fraction.len(),
    ensures
        a.same_value(b) <==> a.numerator() * b.denominator() == b.numerator() * a.denominator(),
{
    let la = a.fraction.len();
    let lb = b.fraction.len();
    let k = (lb - la) as nat;
    lemma_decimal_parts(a);
    lemma_decimal_parts(b);
    lemma_pow10_add(la, k);
    lemma_pow10_positive(la);
    lemma_pow10_positive(k);
    let pa = pow10(la);
    let pb = pow10(lb);
    let pk = pow10(k);
    assert(la + k == lb);
    assert(pb == pa * pk);
    let ia = a.int_value();
    let ib = b.int_value();
    let fa = a.frac_value();
    let fb = b.frac_value();
    let na = a.numerator();
    let nb = b.numerator();
    // The cross products, with the common factor `pa` taken out.
    assert((na * pb == nb * pa) <==> (ia * pb + fa * pk == ib * pb + fb)) by (nonlinear_arith)
        requires
            na == ia * pa + fa,
            nb == ib * pb + fb,
            pb == pa * pk,
            pa >= 1,
    ;
    assert(fa * pk < pb) by (nonlinear_arith)
        requires
            fa < pa,
            pb == pa * pk,
            pk >= 1,
    ;
    // Whole parts and fraction parts separate, by division by `pb`.
    if ia * pb + fa * pk == ib * pb + fb {
        let x = ia * pb + fa * pk;
        lemma_fundamental_div_mod_converse(x as int, pb as int, ia as int, (fa * pk) as int);
        lemma_fundamental_div_mod_converse(x as int, pb as int, ib as int, fb as int);
    }
    // The fraction of `a` padded with zeros to the length of `b`.
    let pad = a.fraction + zero_digits(k);
    lemma_zero_digits(zero_digits(k));
    lemma_digits_value_concat(a.fraction, zero_digits(k));
    assert(all_digits(pad)) by {
        assert forall|j: int| 0 <= j < pad.len() implies is_digit(#[trigger] pad[j]) by {
            if j < la {
                assert(pad[j] == a.fraction[j]);
            } else {
                assert(pad[j] == zero_digits(k)[j - la]);
            }
        }
    }
    assert(digits_value(pad) == fa * pk);
    if fa * pk == fb {
        lemma_digits_eq(pad, b.fraction);
        lemma_trim_pad(a.fraction, k);
    }
    if trim_zeros(a.fraction) == trim_zeros(b.fraction) {
        let t = trim_zeros(a.fraction);
        lemma_trim_rest(a.fraction);
        lemma_trim_rest(b.fraction);
        let za = zero_digits((la - t.len()) as nat);
        let zb = zero_digits((lb - t.len()) as nat);
        assert(pad =~= t + za + zero_digits(k));
        assert(t + za + zero_digits(k) =~= t + zb);
        assert(pad == b.fraction);
    }
}

/// Equality by value, as `==` on [`Decimal`] decides it: two decimals are
/// equal exactly when their values are.
pub proof fn law_decimal_eq(a: Decimal, b: Decimal)
    requires
        a@.wf(),
        b@.wf(),
    ensures
        PartialEqSpec::eq_spec(&a, &b) <==> a@.numerator() * b@.denominator() == b@.numerator() * a@.denominator(),
{
    law_equal_values(a@, b@);
}

/// Equality by value: two decimals are equal exactly when their values are,
/// `a.numerator() / a.denominator() == b.numerator() / b.denominator()`.
pub proof fn law_equal_values(a: DecimalV, b: DecimalV)
    requires
        a.wf(),
        b.wf(),
    ensures
        a.same_value(b) <==> a.numerator() * b.denominator() == b.numerator() * a.denominator(),
{
    if a.fraction.len() <= b.fraction.len() {
        lemma_equal_values_le(a, b);
    } else {
        lemma_equal_values_le(b, a);
    }
}

/// Digit strings that do not start with `0` are equal when their values are.
proof fn lemma_canonical_digits(a: Seq<u8>, b: Seq<u8>)
    requires
        all_digits(a),
        all_digits(b),
        a.len() == 0 || a[0] != 48,
        b.len() == 0 || b[0] != 48,
        digits_value(a) == digits_value(b),
    ensures
        a == b,
{
    assert forall|i: int| 0 <= i < a.len() implies #[trigger] a[i] < 128 by {
        assert(is_digit(a[i]));
    }
    assert forall|i: int| 0 <= i < b.len() implies #[trigger] b[i] < 128 by {
        assert(is_digit(b[i]));
    }
    lemma_ascii_chars_bytes(a);
    lemma_ascii_chars_bytes(b);
    if a.len() > 0 {
        lemma_nat_text_digits(a);
    }
    if b.len() > 0 {
        lemma_nat_text_digits(b);
    }
    if a.len() == 0 && b.len() > 0 {
        assert(ascii_bytes(seq!['0']) =~= seq![48u8]);
        assert(b[0] == 48);
    }
    if b.len() == 0 && a.len() > 0 {
        assert(ascii_bytes(seq!['0']) =~= seq![48u8]);
        assert(a[0] == 48);
    }
    if a.len() == 0 && b.len() == 0 {
        assert(a =~= b);
    }
}

/// The digits of `b` after its leading zeros.
fn skip_leading_zeros(b: &[u8]) -> (r: &[u8])
    requires
        all_digits(b@),
    ensures
        all_digits(r@),
        digits_value(r@) == digits_value(b@),
        r@.len() == 0 || r@[0] != 48,
{
    let mut i: usize = 0;
    while i < b.len() && b[i] == 48
        invariant
            i <= b@.len(),
            all_zero_digits(b@.take(i as int)),
        decreases b@.len() - i,
    {
        i = i + 1;
    }
    let r = slice_subrange(b, i, b.len());
    proof {
        assert(b@ =~= b@.take(i as int) + r@);
        lemma_digits_value_leading_zeros(b@.take(i as int), r@);
        assert forall|j: int| 0 <= j < r@.len() implies is_digit(#[trigger] r@[j]) by {
            assert(r@[j] == b@[i + j]);
        }
    }
    r
}

/// The digits of `b` before its trailing zeros.
fn drop_trailing_zeros(b: &[u8]) -> (r: &[u8])
    ensures
        r@ == trim_zeros(b@),
{
    let mut k = b.len();
    while k > 0 && b[k - 1] == 48
        invariant
            k <= b@.len(),
            forall|i: int| k <= i < b@.len() ==> #[trigger] b@[i] == 48,
        decreases k,
    {
        k = k - 1;
    }
    proof {
        lemma_trim_zeros(b@, k as int);
    }
    let r = slice_subrange(b, 0, k);
    assert(r@ =~= b@.take(k as int));
    r
}

/// Whether the two byte strings are the same.
fn same_bytes(a: &[u8], b: &[u8]) -> (r: bool)
    ensures
        r == (a@ == b@),
{
    if a.len() != b.len() {
        return false;
    }
    let mut i: usize = 0;
    while i < a.len()
        invariant
            i <= a@.len(),
            a@.len() == b@.len(),
            forall|j: int| 0 <= j < i ==> a@[j] == b@[j],
        decreases a@.len() - i,
    {
        if a[i] != b[i] {
            return false;
        }
        i = i + 1;
    }
    assert(a@ =~= b@);
    true
}

impl PartialEq for Decimal {
    fn eq(&self, other: &Self) -> (r: bool) {
        proof {
            use_type_invariant(self);
            use_type_invariant(other);
        }
        let a = skip_leading_zeros(self.int_digits());
        let b = skip_leading_zeros(other.int_digits());
        proof {
            if digits_value(a@) == digits_value(b@) {
                lemma_canonical_digits(a@, b@);
            }
        }
        same_bytes(a, b) && same_bytes(
            drop_trailing_zeros(self.frac_digits()),
            drop_trailing_zeros(other.frac_digits()),
        )
    }
}

impl PartialEqSpecImpl for Decimal {
    open spec fn obeys_eq_spec() -> bool {
        true
    }

    open spec fn eq_spec(&self, other: &Self) -> bool {
        self@.same_value(other@)
    }
}

} // verus!
