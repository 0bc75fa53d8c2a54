//! Errors of ISO 6709 parsing.
use vstd::prelude::*;

use vstd::slice::{slice_subrange, slice_to_vec};

use crate::arith::{add_digits, append_zeros, div_small, times_36, times_60};
use crate::decimal::{decimal_of, Decimal, DecimalV};
use crate::digits::{all_digits, digits_value, is_digit, is_number_text, lemma_digits_eq, lemma_digits_value_bound, lemma_digits_value_leading_zeros, lemma_pow10_add, lemma_pow10_positive, pow10};
use crate::text::{
    ascii_bytes, lemma_digits_split, lemma_number_parts, lemma_pad_nat, nat_text, plain_text,
    push_nat, push_plain, push_str, zero_pad,
};

verus! {

/// Which coordinate component caused a range error.
#[derive(Debug, Clone, Copy, PartialEq, Eq, Hash, Structural)]
pub enum Component {
    /// Latitude degrees (must be 0–90).
    Latitude,
    /// Longitude degrees (must be 0–180).
    Longitude,
    /// Minutes (must be 0–59).
    Minutes,
    /// Seconds (must be 0–59.999…).
    Seconds,
}

impl Component {
    /// Returns `true` for `Latitude`.
    pub fn is_latitude(&self) -> (r: bool)
        ensures
            r == (*self is Latitude),
    {
        matches!(self, Component::Latitude)
    }

    /// Returns `true` for `Longitude`.
    pub fn is_longitude(&self) -> (r: bool)
        ensures
            r == (*self is Longitude),
    {
        matches!(self, Component::Longitude)
    }

    /// Returns `true` for `Minutes`.
    pub fn is_minutes(&self) -> (r: bool)
        ensures
            r == (*self is Minutes),
    {
        matches!(self, Component::Minutes)
    }

    /// Returns `true` for `Seconds`.
    pub fn is_seconds(&self) -> (r: bool)
        ensures
            r == (*self is Seconds),
    {
        matches!(self, Component::Seconds)
    }
}

/// The name of a component.
pub open spec fn component_name(c: Component) -> Seq<char> {
    match c {
        Component::Latitude => "latitude degrees"@,
        Component::Longitude => "longitude degrees"@,
        Component::Minutes => "minutes"@,
        Component::Seconds => "seconds"@,
    }
}

impl Component {
    /// The name of the component: `latitude degrees`, `longitude degrees`,
    /// `minutes` or `seconds`.
    pub fn to_string(&self) -> (r: String)
        ensures
            r@ == component_name(*self),
    {
        let mut out = String::new();
        self.write_to(&mut out);
        assert(out@ =~= component_name(*self));
        out
    }

    /// Appends the name of the component.
    pub fn write_to(&self, out: &mut String)
        ensures
            final(out)@ == old(out)@ + component_name(*self),
    {
        match self {
            Component::Latitude => push_str(out, "latitude degrees"),
            Component::Longitude => push_str(out, "longitude degrees"),
            Component::Minutes => push_str(out, "minutes"),
            Component::Seconds => push_str(out, "seconds"),
        }
    }
}

/// The content of an [`Amount`].
pub struct AmountV {
    pub whole: DecimalV,
    pub minutes: DecimalV,
    pub seconds: DecimalV,
}

impl AmountV {
    /// The amount `whole` (no minutes, no seconds).
    pub open spec fn of(whole: DecimalV) -> AmountV {
        AmountV { whole, minutes: DecimalV::zero(), seconds: DecimalV::zero() }
    }
}

/// The number of fraction digits that each part of the amount fits in.
pub open spec fn amount_scale(a: AmountV) -> nat {
    let w = a.whole.fraction.len();
    let m = a.minutes.fraction.len();
    let s = a.seconds.fraction.len();
    let wm = if w >= m {
        w
    } else {
        m
    };
    if wm >= s {
        wm
    } else {
        s
    }
}

/// `d` times `10^f`, for `f` at least its number of fraction digits.
pub open spec fn scaled(d: DecimalV, f: nat) -> nat {
    d.numerator() * pow10((f - d.fraction.len()) as nat)
}

/// The amount times `3600 * 10^amount_scale(a)`, a whole number.
pub open spec fn amount_total(a: AmountV) -> nat {
    let f = amount_scale(a);
    3600 * scaled(a.whole, f) + 60 * scaled(a.minutes, f) + scaled(a.seconds, f)
}

/// The shortest text of `k / 10^p`.
pub open spec fn ratio_text(k: nat, p: nat) -> Seq<char> {
    plain_text(
        DecimalV {
            integer: ascii_bytes(nat_text(k / pow10(p))),
            fraction: ascii_bytes(zero_pad(nat_text(k % pow10(p)), p)),
        },
    )
}

/// The text of an amount: the shortest text of `whole` when there are no
/// minutes and seconds. Otherwise the amount is
/// `(100 * amount_total(a) / 36) / 10^(amount_scale(a) + 4)`: where 36 divides
/// `100 * amount_total(a)` its decimal expansion is finite and it is written
/// as its shortest text, else as `whole+minutes/60+seconds/3600`.
pub open spec fn amount_text(a: AmountV) -> Seq<char> {
    if a.minutes.is_zero() && a.seconds.is_zero() {
        plain_text(a.whole)
    } else if (100 * amount_total(a)) % 36 == 0 {
        ratio_text(100 * amount_total(a) / 36, amount_scale(a) + 4)
    } else {
        plain_text(a.whole) + "+"@ + plain_text(a.minutes) + "/60+"@ + plain_text(a.seconds)
            + "/3600"@
    }
}

/// The digits of `d` followed by zeros up to `f` fraction digits: `d` times
/// `10^f`.
fn scaled_digits(d: &Decimal, f: usize) -> (r: Vec<u8>)
    requires
        d@.fraction.len() <= f,
    ensures
        all_digits(r@),
        r@.len() >= f,
        digits_value(r@) == scaled(d@, f as nat),
{
    proof {
        use_type_invariant(d);
    }
    let mut v = slice_to_vec(d.int_digits());
    let frac = d.frac_digits();
    let mut i: usize = 0;
    while i < frac.len()
        invariant
            i <= frac@.len(),
            v@ == d@.integer + frac@.take(i as int),
            frac@ == d@.fraction,
        decreases frac@.len() - i,
    {
        v.push(frac[i]);
        i = i + 1;
        assert(frac@.take(i as int) =~= frac@.take(i - 1).push(frac@[i - 1]));
    }
    assert(frac@.take(i as int) =~= frac@);
    assert(all_digits(v@)) by {
        assert forall|j: int| 0 <= j < v@.len() implies is_digit(#[trigger] v@[j]) by {
            if j < d@.integer.len() {
                assert(v@[j] == d@.integer[j]);
            } else {
                assert(v@[j] == d@.fraction[j - d@.integer.len()]);
            }
        }
    }
    append_zeros(v.as_slice(), f - frac.len())
}

/// The digit string of `100 * amount_total(a)`, and `amount_scale(a)`.
fn total_digits(a: &Amount) -> (r: (Vec<u8>, usize))
    ensures
        all_digits(r.0@),
        digits_value(r.0@) == 100 * amount_total(a@),
        r.1 == amount_scale(a@),
        r.0@.len() >= r.1 + 2,
{
    let fw = a.whole.frac_digits().len();
    let fm = a.minutes.frac_digits().len();
    let fs = a.seconds.frac_digits().len();
    let wm = if fw >= fm {
        fw
    } else {
        fm
    };
    let f = if wm >= fs {
        wm
    } else {
        fs
    };
    let w = scaled_digits(&a.whole, f);
    let m = scaled_digits(&a.minutes, f);
    let s = scaled_digits(&a.seconds, f);
    let w36 = times_36(w.as_slice());
    let w3600 = append_zeros(w36.as_slice(), 2);
    let m60 = times_60(m.as_slice());
    let t1 = add_digits(w3600.as_slice(), m60.as_slice());
    let t = add_digits(t1.as_slice(), s.as_slice());
    let t100 = append_zeros(t.as_slice(), 2);
    proof {
        assert(pow10(2) == 100) by {
            reveal_with_fuel(pow10, 3);
        }
        let vw = digits_value(w@);
        let vm = digits_value(m@);
        let vs = digits_value(s@);
        assert(digits_value(w3600@) == 3600 * vw);
        assert(digits_value(t@) == 3600 * vw + 60 * vm + vs);
        assert(digits_value(t100@) == digits_value(t@) * pow10(2));
        assert(digits_value(t100@) == digits_value(t@) * 100);
        assert(digits_value(t100@) == 100 * (3600 * vw + 60 * vm + vs));
    }
    (t100, f)
}

/// The number text `int_b.frac_b`, where the parts are `kv / 10^p` and the
/// `p` digits of `kv % 10^p`, has the shortest text of `kv / 10^p`.
proof fn lemma_ratio_parts(int_b: Seq<u8>, frac_b: Seq<u8>, kv: nat, p: nat)
    requires
        all_digits(int_b),
        all_digits(frac_b),
        int_b.len() >= 1,
        frac_b.len() == p,
        p >= 1,
        digits_value(int_b) == kv / pow10(p),
        digits_value(frac_b) == kv % pow10(p),
    ensures
        is_number_text(int_b + seq![46u8] + frac_b),
        decimal_of(int_b + seq![46u8] + frac_b) == (DecimalV { integer: int_b, fraction: frac_b }),
        plain_text(DecimalV { integer: int_b, fraction: frac_b }) == ratio_text(kv, p),
{
    lemma_number_parts(int_b, frac_b);
    lemma_pow10_positive(p);
    vstd::arithmetic::div_mod::lemma_mod_pos_bound(kv as int, pow10(p) as int);
    let padded = ascii_bytes(zero_pad(nat_text(kv % pow10(p)), p));
    lemma_pad_nat(kv % pow10(p), p);
    lemma_digits_eq(frac_b, padded);
    crate::text::lemma_nat_text_value(kv / pow10(p));
}

/// Appends the shortest text of `k / 10^(f + 4)`, given the digits of `k`
/// (at least `f + 2` of them).
#[verifier::rlimit(30)]
fn push_ratio(out: &mut String, k: &[u8], f: usize)
    requires
        all_digits(k@),
        k@.len() >= f + 2,
    ensures
        final(out)@ == old(out)@ + ratio_text(digits_value(k@), (f + 4) as nat),
{
    let ghost p = (f + 4) as nat;
    let ghost kv = digits_value(k@);
    let n = k.len();
    let mut bytes: Vec<u8> = Vec::new();
    let ghost int_b: Seq<u8>;
    let ghost frac_b: Seq<u8>;
    proof {
        lemma_pow10_positive(p);
        lemma_digits_value_bound(k@);
    }
    if n >= 4 && n - 4 > f {
        let cut = (n - 4) - f;
        let hi = slice_subrange(k, 0, cut);
        let lo = slice_subrange(k, cut, n);
        proof {
            int_b = hi@;
            frac_b = lo@;
            assert(k@ =~= hi@ + lo@);
            assert(all_digits(lo@)) by {
                assert forall|j: int| 0 <= j < lo@.len() implies is_digit(#[trigger] lo@[j]) by {
                    assert(lo@[j] == k@[cut + j]);
                }
            }
            assert(all_digits(hi@)) by {
                assert forall|j: int| 0 <= j < hi@.len() implies is_digit(#[trigger] hi@[j]) by {
                    assert(hi@[j] == k@[j]);
                }
            }
            lemma_digits_split(hi@, lo@);
            assert(lo@.len() == p);
            assert(hi@.len() >= 1);
        }
        let mut i: usize = 0;
        while i < hi.len()
            invariant
                i <= hi@.len(),
                bytes@ == hi@.take(i as int),
            decreases hi@.len() - i,
        {
            bytes.push(hi[i]);
            i = i + 1;
            assert(hi@.take(i as int) =~= hi@.take(i - 1).push(hi@[i - 1]));
        }
        assert(hi@.take(i as int) =~= hi@);
        bytes.push(46);
        let mut i: usize = 0;
        while i < lo.len()
            invariant
                i <= lo@.len(),
                bytes@ == hi@ + seq![46u8] + lo@.take(i as int),
            decreases lo@.len() - i,
        {
            bytes.push(lo[i]);
            i = i + 1;
            assert(lo@.take(i as int) =~= lo@.take(i - 1).push(lo@[i - 1]));
        }
        assert(lo@.take(i as int) =~= lo@);
    } else {
        let zeros = 4 - (n - f);
        proof {
            let z = Seq::new(zeros as nat, |j: int| 48u8);
            int_b = seq![48u8];
            frac_b = z + k@;
            lemma_digits_value_leading_zeros(z, k@);
            assert(digits_value(seq![48u8]) == 0) by {
                assert(seq![48u8] =~= Seq::<u8>::empty().push(48u8));
                crate::digits::lemma_digits_value_push(Seq::<u8>::empty(), 48u8);
            }
            lemma_pow10_add(n as nat, zeros as nat);
            lemma_pow10_positive(zeros as nat);
            assert(kv < pow10(p)) by (nonlinear_arith)
                requires
                    kv < pow10(n as nat),
                    pow10(p) == pow10(n as nat) * pow10(zeros as nat),
                    pow10(zeros as nat) >= 1,
            ;
            assert(all_digits(frac_b)) by {
                assert forall|j: int| 0 <= j < frac_b.len() implies is_digit(#[trigger] frac_b[j]) by {
                    if j >= zeros {
                        assert(frac_b[j] == k@[j - zeros]);
                    }
                }
            }
            assert(all_digits(int_b)) by {
                assert(is_digit(int_b[0]));
            }
            assert(frac_b.len() == p);
            vstd::arithmetic::div_mod::lemma_basic_div(kv as int, pow10(p) as int);
            vstd::arithmetic::div_mod::lemma_small_mod(kv, pow10(p));
        }
        bytes.push(48);
        bytes.push(46);
        let mut i: usize = 0;
        while i < zeros
            invariant
                i <= zeros,
                bytes@ == seq![48u8, 46u8] + Seq::new(i as nat, |j: int| 48u8),
            decreases zeros - i,
        {
            bytes.push(48);
            i = i + 1;
            assert(bytes@ =~= seq![48u8, 46u8] + Seq::new(i as nat, |j: int| 48u8));
        }
        let mut i: usize = 0;
        while i < n
            invariant
                i <= n,
                n == k@.len(),
                bytes@ == seq![48u8, 46u8] + Seq::new(zeros as nat, |j: int| 48u8) + k@.take(
                    i as int,
                ),
            decreases n - i,
        {
            bytes.push(k[i]);
            i = i + 1;
            assert(k@.take(i as int) =~= k@.take(i - 1).push(k@[i - 1]));
        }
        assert(k@.take(n as int) =~= k@);
        assert(bytes@ =~= int_b + seq![46u8] + frac_b);
    }
    proof {
        lemma_ratio_parts(int_b, frac_b, kv, p);
    }
    let d = Decimal::from_number_bytes(bytes.as_slice());
    push_plain(out, &d);
}
/// An exact amount `whole + minutes / 60 + seconds / 3600`, in the unit of the
/// component that it measures.
#[derive(Debug, Clone, PartialEq)]
pub struct Amount {
    whole: Decimal,
    minutes: Decimal,
    seconds: Decimal,
}

impl View for Amount {
    type V = AmountV;

    closed spec fn view(&self) -> AmountV {
        AmountV { whole: self.whole@, minutes: self.minutes@, seconds: self.seconds@ }
    }
}

impl Amount {
    /// The amount `whole + minutes / 60 + seconds / 3600`.
    pub fn new(whole: Decimal, minutes: Decimal, seconds: Decimal) -> (r: Amount)
        ensures
            r@ == (AmountV { whole: whole@, minutes: minutes@, seconds: seconds@ }),
    {
        Amount { whole, minutes, seconds }
    }

    /// The amount `whole`.
    pub fn of(whole: Decimal) -> (r: Amount)
        ensures
            r@ == AmountV::of(whole@),
    {
        Amount { whole, minutes: Decimal::zero(), seconds: Decimal::zero() }
    }

    /// The whole part.
    pub fn whole(&self) -> (r: &Decimal)
        ensures
            r@ == self@.whole,
    {
        &self.whole
    }

    /// The minutes part (a sixtieth of the unit each).
    pub fn minutes(&self) -> (r: &Decimal)
        ensures
            r@ == self@.minutes,
    {
        &self.minutes
    }

    /// Appends the text of the amount.
    pub fn write_to(&self, out: &mut String)
        ensures
            final(out)@ == old(out)@ + amount_text(self@),
    {
        let ghost before = out@;
        if self.minutes.is_zero() && self.seconds.is_zero() {
            push_plain(out, &self.whole);
        } else {
            let (t, f) = total_digits(self);
            let (k, rem) = div_small(t.as_slice(), 36);
            if rem == 0 {
                push_ratio(out, k.as_slice(), f);
            } else {
                push_plain(out, &self.whole);
                push_str(out, "+");
                push_plain(out, &self.minutes);
                push_str(out, "/60+");
                push_plain(out, &self.seconds);
                push_str(out, "/3600");
            }
        }
        assert(out@ =~= before + amount_text(self@));
    }

    /// The seconds part (a 3600th of the unit each).
    pub fn seconds(&self) -> (r: &Decimal)
        ensures
            r@ == self@.seconds,
    {
        &self.seconds
    }
}

/// The content of a [`ParseError`].
pub enum ErrorV {
    Unexpected { position: nat, expected: &'static str },
    OutOfRange { component: Component, value: AmountV },
    InvalidNumber { position: nat },
}

/// Errors that can occur when parsing an ISO 6709 coordinate string.
#[derive(Debug, Clone, PartialEq)]
pub enum ParseError {
    /// Unexpected token or end-of-input at the given byte offset.
    Unexpected {
        /// Byte offset in the input.
        position: usize,
        /// Human-readable description of what was expected.
        expected: &'static str,
    },
    /// A component value is outside its valid range.
    OutOfRange {
        /// Which component is out of range.
        component: Component,
        /// The actual value that was parsed.
        value: Amount,
    },
    /// Failed to parse a numeric value from the input.
    InvalidNumber {
        /// Byte offset in the input.
        position: usize,
    },
}

impl View for ParseError {
    type V = ErrorV;

    open spec fn view(&self) -> ErrorV {
        match self {
            ParseError::Unexpected { position, expected } => ErrorV::Unexpected {
                position: *position as nat,
                expected: *expected,
            },
            ParseError::OutOfRange { component, value } => ErrorV::OutOfRange {
                component: *component,
                value: value@,
            },
            ParseError::InvalidNumber { position } => ErrorV::InvalidNumber {
                position: *position as nat,
            },
        }
    }
}

/// The message of an error.
pub open spec fn message_text(e: ErrorV) -> Seq<char> {
    match e {
        ErrorV::Unexpected { position, expected } => "unexpected input at byte "@ + nat_text(
            position,
        ) + ", expected "@ + expected@,
        ErrorV::OutOfRange { component, value } => component_name(component) + " value "@
            + amount_text(value) + " out of range"@,
        ErrorV::InvalidNumber { position } => "invalid number at byte "@ + nat_text(position),
    }
}

impl ParseError {
    /// The error message.
    pub fn to_string(&self) -> (r: String)
        ensures
            r@ == message_text(self@),
    {
        let mut out = String::new();
        match self {
            ParseError::Unexpected { position, expected } => {
                push_str(&mut out, "unexpected input at byte ");
                push_nat(&mut out, *position as u64);
                push_str(&mut out, ", expected ");
                push_str(&mut out, expected);
            },
            ParseError::OutOfRange { component, value } => {
                component.write_to(&mut out);
                push_str(&mut out, " value ");
                value.write_to(&mut out);
                push_str(&mut out, " out of range");
            },
            ParseError::InvalidNumber { position } => {
                push_str(&mut out, "invalid number at byte ");
                push_nat(&mut out, *position as u64);
            },
        }
        assert(out@ =~= message_text(self@));
        out
    }

    /// Returns `true` for `Unexpected`.
    pub fn is_unexpected(&self) -> (r: bool)
        ensures
            r == (*self is Unexpected),
    {
        matches!(self, ParseError::Unexpected { .. })
    }

    /// Returns `true` for `OutOfRange`.
    pub fn is_out_of_range(&self) -> (r: bool)
        ensures
            r == (*self is OutOfRange),
    {
        matches!(self, ParseError::OutOfRange { .. })
    }

    /// Returns `true` for `InvalidNumber`.
    pub fn is_invalid_number(&self) -> (r: bool)
        ensures
            r == (*self is InvalidNumber),
    {
        matches!(self, ParseError::InvalidNumber { .. })
    }
}

} // verus!
