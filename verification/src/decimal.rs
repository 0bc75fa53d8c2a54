//! Exact non-negative decimal numbers as they are written in ISO 6709 text.
use vstd::string::StringSliceAdditionalSpecFns;
use vstd::prelude::*;
use vstd::slice::{slice_subrange, slice_to_vec};

use crate::digits::{
    all_digits, all_zero_digits, digits_end, digits_value, is_digit, is_number_text, lemma_digits_end,
    lemma_digits_value_bound, lemma_digits_value_concat, lemma_digits_value_prefix,
    lemma_digits_value_push, lemma_digits_value_zero, lemma_pow10_positive, memchr_dot, pow10,
};

verus! {

/// The mathematical content of a [`Decimal`]: its integer digits and its
/// fraction digits, as ASCII bytes.
pub struct DecimalV {
    pub integer: Seq<u8>,
    pub fraction: Seq<u8>,
}

impl DecimalV {
    /// Both digit strings hold ASCII digits only.
    pub open spec fn wf(self) -> bool {
        all_digits(self.integer) && all_digits(self.fraction)
    }

    /// The value is `numerator() / denominator()`.
    pub open spec fn numerator(self) -> nat {
        digits_value(self.integer + self.fraction)
    }

    pub open spec fn denominator(self) -> nat {
        pow10(self.fraction.len())
    }

    /// The value of the integer digits.
    pub open spec fn int_value(self) -> nat {
        digits_value(self.integer)
    }

    /// The value of the fraction digits, in units of `1 / denominator()`.
    pub open spec fn frac_value(self) -> nat {
        digits_value(self.fraction)
    }

    /// The value is a whole number.
    pub open spec fn is_integer(self) -> bool {
        self.frac_value() == 0
    }

    /// The value is zero.
    pub open spec fn is_zero(self) -> bool {
        self.numerator() == 0
    }

    /// The value is greater than the whole number `n`.
    pub open spec fn greater_than(self, n: nat) -> bool {
        self.numerator() > n * self.denominator()
    }

    /// The value is at least the whole number `n`.
    pub open spec fn at_least(self, n: nat) -> bool {
        self.numerator() >= n * self.denominator()
    }

    /// The value zero, written with no digits.
    pub open spec fn zero() -> DecimalV {
        DecimalV { integer: Seq::empty(), fraction: Seq::empty() }
    }

    /// The whole number written by the digit string `int`.
    pub open spec fn whole(digits: Seq<u8>) -> DecimalV {
        DecimalV { integer: digits, fraction: Seq::empty() }
    }
}

/// The decimal that the number text `t` (`DIGITS` or `DIGITS.DIGITS`) writes.
pub open spec fn decimal_of(t: Seq<u8>) -> DecimalV {
    let e = digits_end(t, 0);
    DecimalV {
        integer: t.take(e),
        fraction: if e < t.len() {
            t.skip(e + 1)
        } else {
            Seq::empty()
        },
    }
}

/// The numerator splits into integer digits and fraction digits.
pub proof fn lemma_decimal_parts(d: DecimalV)
    requires
        d.wf(),
    ensures
        d.numerator() == d.int_value() * d.denominator() + d.frac_value(),
        d.frac_value() < d.denominator(),
        d.denominator() >= 1,
{
    lemma_digits_value_concat(d.integer, d.fraction);
    lemma_digits_value_bound(d.fraction);
    lemma_pow10_positive(d.fraction.len());
}

/// Comparisons of a decimal with a whole number, in terms of its digits.
pub proof fn lemma_decimal_compare(d: DecimalV, n: nat)
    requires
        d.wf(),
    ensures
        d.greater_than(n) <==> (d.int_value() > n || (d.int_value() == n && d.frac_value() > 0)),
        d.at_least(n) <==> d.int_value() >= n,
        d.is_zero() <==> (d.int_value() == 0 && d.frac_value() == 0),
{
    lemma_decimal_parts(d);
    let i = d.int_value();
    let f = d.frac_value();
    let q = d.denominator();
    if i > n {
        assert(i * q >= (n + 1) * q) by (nonlinear_arith)
            requires
                i >= n + 1,
                q >= 1,
        ;
        assert((n + 1) * q == n * q + q) by (nonlinear_arith);
    } else if i == n {
    } else {
        assert(i * q + f < n * q) by (nonlinear_arith)
            requires
                i + 1 <= n,
                f < q,
        ;
    }
    if i > 0 {
        assert(i * q >= q) by (nonlinear_arith)
            requires
                i >= 1,
                q >= 1,
        ;
    }
}

pub proof fn lemma_decimal_of_wf(t: Seq<u8>)
    requires
        is_number_text(t),
    ensures
        decimal_of(t).wf(),
        decimal_of(t).integer.len() >= 1,
{
    lemma_digits_end(t, 0);
    let e = digits_end(t, 0);
    let d = decimal_of(t);
    assert forall|i: int| 0 <= i < d.integer.len() implies is_digit(#[trigger] d.integer[i]) by {
        assert(d.integer[i] == t[i]);
    }
    if e < t.len() {
        lemma_digits_end(t, e + 1);
        assert forall|i: int| 0 <= i < d.fraction.len() implies is_digit(#[trigger] d.fraction[i]) by {
            assert(d.fraction[i] == t[e + 1 + i]);
        }
    }
}

/// An exact, non-negative decimal number: integer digits and fraction digits,
/// kept as they were written (leading and trailing zeros included).
#[derive(Debug, Eq)]
pub struct Decimal {
    int_digits: Vec<u8>,
    frac_digits: Vec<u8>,
}

impl View for Decimal {
    type V = DecimalV;

    closed spec fn view(&self) -> DecimalV {
        DecimalV { integer: self.int_digits@, fraction: self.frac_digits@ }
    }
}

impl Decimal {
    /// Every decimal holds ASCII digits only.
    #[verifier::type_invariant]
    pub open spec fn digits_only(self) -> bool {
        self@.wf()
    }

    /// The decimal zero.
    pub fn zero() -> (r: Decimal)
        ensures
            r@ == DecimalV::zero(),
    {
        let r = Decimal { int_digits: Vec::new(), frac_digits: Vec::new() };
        assert(r@.integer =~= Seq::<u8>::empty());
        r
    }

    /// Reads a number text (`DIGITS` or `DIGITS.DIGITS`).
    pub fn from_number_bytes(b: &[u8]) -> (r: Decimal)
        requires
            is_number_text(b@),
        ensures
            r@ == decimal_of(b@),
    {
        proof {
            lemma_digits_end(b@, 0);
            lemma_decimal_of_wf(b@);
        }
        let ghost e = digits_end(b@, 0);
        let n = b.len();
        match memchr_dot(b) {
            None => {
                assert(e == b@.len());
                assert(b@.take(e) =~= b@);
                let r = Decimal { int_digits: slice_to_vec(b), frac_digits: Vec::new() };
                assert(r@.fraction =~= Seq::<u8>::empty());
                r
            },
            Some(k) => {
                assert(k < b@.len());
                assert(k as int == e) by {
                    if e < k {
                        assert(b@[e] == 46);
                    } else if k < e {
                        assert(is_digit(b@[k as int]));
                    }
                }
                let int_part = slice_subrange(b, 0, k);
                let frac_part = slice_subrange(b, k + 1, n);
                assert(int_part@ =~= b@.take(e));
                assert(frac_part@ =~= b@.skip(e + 1));
                Decimal { int_digits: slice_to_vec(int_part), frac_digits: slice_to_vec(frac_part) }
            },
        }
    }

    /// The whole number written by the digit string `b`.
    pub fn from_int_digits(b: &[u8]) -> (r: Decimal)
        requires
            all_digits(b@),
        ensures
            r@ == DecimalV::whole(b@),
    {
        let r = Decimal { int_digits: slice_to_vec(b), frac_digits: Vec::new() };
        assert(r@.fraction =~= Seq::<u8>::empty());
        r
    }

    /// Whether the value is greater than the whole number `n`.
    pub fn greater_than(&self, n: u64) -> (r: bool)
        requires
            n <= 1_000_000_000_000_000,
        ensures
            r == self@.greater_than(n as nat),
    {
        proof {
            use_type_invariant(self);
            lemma_decimal_compare(self@, n as nat);
            lemma_digits_value_zero(self@.fraction);
        }
        match digits_value_at_most(self.int_digits.as_slice(), n) {
            None => true,
            Some(v) => v == n && !all_zeros(self.frac_digits.as_slice()),
        }
    }

    /// Whether the value is at least the whole number `n`.
    pub fn at_least(&self, n: u64) -> (r: bool)
        requires
            n <= 1_000_000_000_000_000,
        ensures
            r == self@.at_least(n as nat),
    {
        proof {
            use_type_invariant(self);
            lemma_decimal_compare(self@, n as nat);
        }
        if n == 0 {
            return true;
        }
        match digits_value_at_most(self.int_digits.as_slice(), n - 1) {
            None => true,
            Some(_) => false,
        }
    }

    /// Whether the value is zero.
    pub fn is_zero(&self) -> (r: bool)
        ensures
            r == self@.is_zero(),
    {
        proof {
            use_type_invariant(self);
            lemma_decimal_compare(self@, 0);
            lemma_digits_value_zero(self@.integer);
            lemma_digits_value_zero(self@.fraction);
        }
        all_zeros(self.int_digits.as_slice()) && all_zeros(self.frac_digits.as_slice())
    }

    /// Reads a decimal number written as `DIGITS` or `DIGITS.DIGITS`.
    pub fn parse(text: &str) -> (r: Option<Decimal>)
        ensures
            r is Some <==> is_number_text(text.spec_bytes()),
            r matches Some(d) ==> d@ == decimal_of(text.spec_bytes()),
    {
        let b = text.as_bytes();
        if Self::check_number_text(b) {
            Some(Self::from_number_bytes(b))
        } else {
            None
        }
    }

    /// Decides whether `b` reads `DIGITS` or `DIGITS.DIGITS`.
    fn check_number_text(b: &[u8]) -> (r: bool)
        ensures
            r == is_number_text(b@),
    {
        let e = scan_digits(b, 0);
        if e == 0 {
            return false;
        }
        if e == b.len() {
            return true;
        }
        if b[e] != 46 || e + 1 >= b.len() {
            return false;
        }
        scan_digits(b, e + 1) == b.len()
    }

    /// The integer digits, as ASCII bytes.
    pub fn int_digits(&self) -> (r: &[u8])
        ensures
            r@ == self@.integer,
    {
        self.int_digits.as_slice()
    }

    /// The fraction digits, as ASCII bytes (empty when the number has no fraction).
    pub fn frac_digits(&self) -> (r: &[u8])
        ensures
            r@ == self@.fraction,
    {
        self.frac_digits.as_slice()
    }
}

impl Clone for Decimal {
    fn clone(&self) -> (r: Decimal)
        ensures
            r@ == self@,
    {
        proof {
            use_type_invariant(self);
        }
        Decimal { int_digits: self.int_digits.clone(), frac_digits: self.frac_digits.clone() }
    }
}

/// The end of the run of ASCII digits in `b` that starts at `i`.
pub fn scan_digits(b: &[u8], i: usize) -> (e: usize)
    requires
        i <= b@.len(),
    ensures
        e == digits_end(b@, i as int),
        i <= e <= b@.len(),
{
    proof {
        lemma_digits_end(b@, i as int);
    }
    let mut j = i;
    while j < b.len() && 48 <= b[j] && b[j] <= 57
        invariant
            i <= j <= b@.len(),
            digits_end(b@, j as int) == digits_end(b@, i as int),
        decreases b@.len() - j,
    {
        j = j + 1;
    }
    j
}

/// The value of a digit string, if it is at most `limit`.
pub fn digits_value_at_most(d: &[u8], limit: u64) -> (r: Option<u64>)
    requires
        all_digits(d@),
        limit <= 1_000_000_000_000_000,
    ensures
        match r {
            Some(v) => v == digits_value(d@) && v <= limit,
            None => digits_value(d@) > limit,
        },
{
    let mut v: u64 = 0;
    let mut i: usize = 0;
    while i < d.len()
        invariant
            i <= d@.len(),
            v == digits_value(d@.take(i as int)),
            v <= limit,
            all_digits(d@),
            limit <= 1_000_000_000_000_000,
        decreases d@.len() - i,
    {
        assert(d@.take(i + 1) =~= d@.take(i as int).push(d@[i as int]));
        proof {
            lemma_digits_value_push(d@.take(i as int), d@[i as int]);
        }
        assert(is_digit(d@[i as int]));
        let nv = v * 10 + (d[i] - 48) as u64;
        if nv > limit {
            proof {
                lemma_digits_value_prefix(d@, i + 1);
            }
            return None;
        }
        v = nv;
        i = i + 1;
    }
    assert(d@.take(i as int) =~= d@);
    Some(v)
}

/// Whether every byte of `d` is the digit `0`.
pub fn all_zeros(d: &[u8]) -> (r: bool)
    ensures
        r == all_zero_digits(d@),
{
    let mut i: usize = 0;
    while i < d.len()
        invariant
            i <= d@.len(),
            forall|j: int| 0 <= j < i ==> d@[j] == 48,
        decreases d@.len() - i,
    {
        if d[i] != 48 {
            return false;
        }
        i = i + 1;
    }
    true
}

} // verus!
