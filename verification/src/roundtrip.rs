//! Writing and reading back: the texts that `to_string` writes are parsed
//! to the same coordinate.
use vstd::prelude::*;
use vstd::utf8::{char_u32_cast, encode_utf8, is_ascii_chars, is_ascii_chars_encode_utf8};

use crate::decimal::{decimal_of, lemma_decimal_compare, DecimalV};
use crate::digits::{all_digits, all_zero_digits, digits_value, is_digit, lemma_digits_end_at, lemma_digits_value_zero, pow10};
use crate::error::Component;
use crate::error::ErrorV;
use crate::parser::{
    altitude_spec, latitude_spec, longitude_spec, parse_spec, deg_min_spec, deg_spec, dms_spec, lemma_signed_decimal, signed_text, tail_spec,
};
use crate::text::{
    ascii_bytes, ascii_chars, lemma_ascii_bytes_concat, lemma_ascii_chars_bytes, lemma_fixed_exact,
    lemma_nat_text_digits, lemma_nat_text_len, lemma_pad_digits, lemma_pad_nat, lemma_trim_zeros,
    lemma_exact_below_sixty, nat_text, part_text, plain_text, zero_pad,
};
use crate::token::{alnum_end, is_alnum, is_sign, lex, signed_kind, Lexed, TokenKind};
use crate::types::{
    altitude_text, angle_text, coordinate_text, crs_text, AltitudeV, AngleV, CoordinateV, Sign,
};

verus! {

// ---------------------------------------------------------------------------
// Normal forms: the texts that `to_string` writes back unchanged
// ---------------------------------------------------------------------------

/// No fraction digits, or exactly `p` of them, not all zero.
pub open spec fn normal_fraction(f: Seq<u8>, p: nat) -> bool {
    f.len() == 0 || (f.len() == p && !all_zero_digits(f))
}

/// An angle in range and written as `to_string` writes it: decimal degrees
/// with `w` integer and 4 fraction digits; degrees and minutes `MM` or
/// `MM.MMMM`; degrees, minutes and seconds `SS` or `SS.SSSSSS`.
pub open spec fn normal_angle(a: AngleV, w: nat, limit: nat) -> bool {
    match a {
        AngleV::Deg { degrees, .. } => {
            &&& degrees.wf()
            &&& degrees.integer.len() == w
            &&& degrees.fraction.len() == 4
            &&& !degrees.greater_than(limit)
        },
        AngleV::DegMin { degrees, minutes, .. } => {
            &&& degrees <= limit
            &&& minutes.wf()
            &&& minutes.integer.len() == 2
            &&& normal_fraction(minutes.fraction, 4)
            &&& !minutes.at_least(60)
            &&& (degrees == limit ==> minutes.is_zero())
        },
        AngleV::Dms { degrees, minutes, seconds, .. } => {
            &&& degrees <= limit
            &&& minutes < 60
            &&& seconds.wf()
            &&& seconds.integer.len() == 2
            &&& normal_fraction(seconds.fraction, 6)
            &&& !seconds.at_least(60)
            &&& (degrees == limit ==> minutes == 0 && seconds.is_zero())
        },
    }
}

/// The byte that writes a sign.
pub open spec fn sign_byte(s: Sign) -> u8 {
    match s {
        Sign::Pos => 43,
        Sign::Neg => 45,
    }
}

/// A byte that ends a number: neither a digit nor `.`.
pub open spec fn ends_number(b: u8) -> bool {
    !is_digit(b) && b != 46
}

// ---------------------------------------------------------------------------
// Lexing known texts
// ---------------------------------------------------------------------------

/// A signed number text `t` at position `i`, followed by the end of the input
/// or a byte that ends a number, is one token.
pub proof fn lemma_lex_signed_at(s: Seq<u8>, i: int, t: Seq<u8>, n: int)
    requires
        0 <= i,
        signed_text(t, n),
        i + t.len() <= s.len(),
        s.subrange(i, i + t.len()) == t,
        i + t.len() == s.len() || ends_number(s[i + t.len()]),
    ensures
        lex(s, i) == (Lexed::Token { kind: signed_kind(n), end: i + t.len() }),
{
    let m = t.len() as int;
    assert(s[i] == t[0]);
    assert forall|j: int| i + 1 <= j < i + 1 + n implies is_digit(#[trigger] s[j]) by {
        assert(s[j] == t[j - i]);
    }
    if m > 1 + n {
        assert(s[i + 1 + n] == t[1 + n]);
        assert forall|j: int| i + 2 + n <= j < i + m implies is_digit(#[trigger] s[j]) by {
            assert(s[j] == t[j - i]);
        }
        lemma_digits_end_at(s, i + 2 + n, i + m);
        assert(s[i + 2 + n] == t[2 + n]);
    }
    lemma_digits_end_at(s, i + 1, i + 1 + n);
}

/// The end of a run of letters and digits that stops at `e`.
pub proof fn lemma_alnum_end_at(s: Seq<u8>, i: int, e: int)
    requires
        0 <= i <= e <= s.len(),
        forall|j: int| i <= j < e ==> is_alnum(#[trigger] s[j]),
        e == s.len() || !is_alnum(s[e]),
    ensures
        alnum_end(s, i) == e,
    decreases e - i,
{
    if i < e {
        lemma_alnum_end_at(s, i + 1, e);
    }
}

/// `CRS` and an identifier at position `i`, followed by the end of the input
/// or a byte that is not a letter or digit, is one token.
pub proof fn lemma_lex_crs_at(s: Seq<u8>, i: int, id: Seq<u8>)
    requires
        0 <= i,
        id.len() >= 1,
        forall|j: int| 0 <= j < id.len() ==> is_alnum(#[trigger] id[j]),
        i + 3 + id.len() <= s.len(),
        s.subrange(i, i + 3 + id.len()) == seq![67u8, 82u8, 83u8] + id,
        i + 3 + id.len() == s.len() || !is_alnum(s[i + 3 + id.len()]),
    ensures
        lex(s, i) == (Lexed::Token { kind: TokenKind::CrsId, end: i + 3 + id.len() }),
{
    let t = seq![67u8, 82u8, 83u8] + id;
    assert(s[i] == t[0] && s[i + 1] == t[1] && s[i + 2] == t[2]);
    assert forall|j: int| i + 3 <= j < i + 3 + id.len() implies is_alnum(#[trigger] s[j]) by {
        assert(s[j] == t[j - i]);
        assert(t[j - i] == id[j - i - 3]);
    }
    lemma_alnum_end_at(s, i + 3, i + 3 + id.len());
}

// ---------------------------------------------------------------------------
// Angles
// ---------------------------------------------------------------------------

/// The digits of a decimal are ASCII.
proof fn lemma_digits_ascii(d: Seq<u8>)
    requires
        all_digits(d),
    ensures
        forall|i: int| 0 <= i < d.len() ==> #[trigger] d[i] < 128,
{
    assert forall|i: int| 0 <= i < d.len() implies #[trigger] d[i] < 128 by {
        assert(is_digit(d[i]));
    }
}

/// The text of a minutes or seconds value in normal form is its digits
/// (and `.` before the fraction digits).
proof fn lemma_part_exact(x: DecimalV, p: nat)
    requires
        x.wf(),
        x.integer.len() == 2,
        normal_fraction(x.fraction, p),
        p >= 1,
        !x.at_least(60),
    ensures
        part_text(x, p) == ascii_chars(x.integer) + if x.fraction.len() == 0 {
            Seq::<char>::empty()
        } else {
            seq!['.'] + ascii_chars(x.fraction)
        },
{
    reveal(part_text);
    lemma_decimal_compare(x, 60);
    lemma_digits_value_zero(x.fraction);
    if x.fraction.len() > 0 {
        lemma_exact_below_sixty(x, p);
    }
    if x.fraction.len() == 0 {
        assert(x.frac_value() == 0);
        lemma_pad_digits(x.integer);
        assert(ascii_chars(x.integer) + Seq::<char>::empty() =~= ascii_chars(x.integer));
    } else {
        lemma_fixed_exact(x, 2, p);
    }
}

/// Joining ASCII texts gives an ASCII text.
proof fn lemma_ascii_join(a: Seq<char>, b: Seq<char>)
    requires
        is_ascii_chars(a),
        is_ascii_chars(b),
    ensures
        is_ascii_chars(a + b),
{
    assert forall|i: int| 0 <= i < (a + b).len() implies '\0' <= #[trigger] (a + b)[i] <= '\u{7f}' by {
        if i < a.len() {
            assert((a + b)[i] == a[i]);
        } else {
            assert((a + b)[i] == b[i - a.len()]);
        }
    }
}

/// The text of a sign is ASCII.
proof fn lemma_sign_ascii(s: Sign)
    ensures
        is_ascii_chars(seq![s.symbol()]),
{
}

/// The bytes of the text of a sign and the rest.
proof fn lemma_sign_bytes(s: Sign, rest: Seq<char>)
    ensures
        ascii_bytes(seq![s.symbol()] + rest) == seq![sign_byte(s)] + ascii_bytes(rest),
        is_sign(sign_byte(s)),
        Sign::of_byte(sign_byte(s)) == s,
        (s.symbol() as u32) < 128,
{
    assert(ascii_bytes(seq![s.symbol()] + rest) =~= seq![sign_byte(s)] + ascii_bytes(rest));
}

/// Decimal degrees in normal form are written as one signed number that
/// reads back as the same angle.
proof fn lemma_deg_roundtrip(sign: Sign, degrees: DecimalV, w: nat, limit: nat, component: Component)
    requires
        normal_angle(AngleV::Deg { sign, degrees }, w, limit),
        w >= 1,
        limit < pow10(w),
    ensures
        is_ascii_chars(angle_text(AngleV::Deg { sign, degrees }, w)),
        signed_text(ascii_bytes(angle_text(AngleV::Deg { sign, degrees }, w)), w as int),
        deg_spec(ascii_bytes(angle_text(AngleV::Deg { sign, degrees }, w)), limit, component)
            == Ok::<AngleV, crate::error::ErrorV>(AngleV::Deg { sign, degrees }),
{
    let a = AngleV::Deg { sign, degrees };
    let txt = angle_text(a, w);
    let t = ascii_bytes(txt);
    lemma_fixed_exact(degrees, w, 4);
    lemma_digits_ascii(degrees.integer);
    lemma_digits_ascii(degrees.fraction);
    lemma_ascii_chars_bytes(degrees.integer);
    lemma_ascii_chars_bytes(degrees.fraction);
    let body = ascii_chars(degrees.integer) + seq!['.'] + ascii_chars(degrees.fraction);
    lemma_sign_bytes(sign, body);
    lemma_ascii_bytes_concat(ascii_chars(degrees.integer) + seq!['.'], ascii_chars(degrees.fraction));
    lemma_ascii_bytes_concat(ascii_chars(degrees.integer), seq!['.']);
    assert(ascii_bytes(seq!['.']) =~= seq![46u8]);
    assert(t =~= seq![sign_byte(sign)] + degrees.integer + seq![46u8] + degrees.fraction);
    assert(signed_text(t, w as int)) by {
        assert forall|j: int| 1 <= j < 1 + w as int implies is_digit(#[trigger] t[j]) by {
            assert(t[j] == degrees.integer[j - 1]);
        }
        assert forall|j: int| 2 + w as int <= j < t.len() implies is_digit(#[trigger] t[j]) by {
            assert(t[j] == degrees.fraction[j - 2 - w]);
        }
    }
    lemma_signed_decimal(t, w as int, 1);
    assert(t.subrange(1, 1 + w as int) =~= degrees.integer);
    assert(t.skip(2 + w as int) =~= degrees.fraction);
    assert(is_ascii_chars(txt)) by {
        lemma_sign_ascii(sign);
        assert(is_ascii_chars(seq!['.']));
        lemma_ascii_join(ascii_chars(degrees.integer), seq!['.']);
        lemma_ascii_join(ascii_chars(degrees.integer) + seq!['.'], ascii_chars(degrees.fraction));
        lemma_ascii_join(seq![sign.symbol()], body);
    }
}

/// Degrees and minutes in normal form are written as one signed number that
/// reads back as the same angle.
proof fn lemma_deg_min_roundtrip(
    sign: Sign,
    degrees: nat,
    minutes: DecimalV,
    w: nat,
    limit: nat,
    component: Component,
)
    requires
        normal_angle(AngleV::DegMin { sign, degrees, minutes }, w, limit),
        w >= 1,
        limit < pow10(w),
    ensures
        is_ascii_chars(angle_text(AngleV::DegMin { sign, degrees, minutes }, w)),
        signed_text(ascii_bytes(angle_text(AngleV::DegMin { sign, degrees, minutes }, w)), w as int + 2),
        deg_min_spec(ascii_bytes(angle_text(AngleV::DegMin { sign, degrees, minutes }, w)), w as int, limit, component)
            == Ok::<AngleV, crate::error::ErrorV>(AngleV::DegMin { sign, degrees, minutes }),
{
    let a = AngleV::DegMin { sign, degrees, minutes };
    let txt = angle_text(a, w);
    let t = ascii_bytes(txt);
    let wi = w as int;
    lemma_pad_nat(degrees, w);
    lemma_part_exact(minutes, 4);
    lemma_digits_ascii(minutes.integer);
    lemma_digits_ascii(minutes.fraction);
    lemma_ascii_chars_bytes(minutes.integer);
    lemma_ascii_chars_bytes(minutes.fraction);
    lemma_decimal_compare(minutes, 60);
    let dd = ascii_bytes(zero_pad(nat_text(degrees), w));
    let tail = if minutes.fraction.len() == 0 {
        Seq::<char>::empty()
    } else {
        seq!['.'] + ascii_chars(minutes.fraction)
    };
    let tail_b = if minutes.fraction.len() == 0 {
        Seq::<u8>::empty()
    } else {
        seq![46u8] + minutes.fraction
    };
    assert(ascii_bytes(tail) =~= tail_b);
    let body = zero_pad(nat_text(degrees), w) + part_text(minutes, 4);
    assert(txt == seq![sign.symbol()] + body);
    lemma_sign_bytes(sign, body);
    lemma_ascii_bytes_concat(zero_pad(nat_text(degrees), w), part_text(minutes, 4));
    lemma_ascii_bytes_concat(ascii_chars(minutes.integer), tail);
    assert(t =~= seq![sign_byte(sign)] + dd + minutes.integer + tail_b);
    assert(signed_text(t, wi + 2)) by {
        assert forall|j: int| 1 <= j < 3 + wi implies is_digit(#[trigger] t[j]) by {
            if j < 1 + wi {
                assert(t[j] == dd[j - 1]);
            } else {
                assert(t[j] == minutes.integer[j - 1 - wi]);
            }
        }
        if minutes.fraction.len() > 0 {
            assert forall|j: int| 4 + wi <= j < t.len() implies is_digit(#[trigger] t[j]) by {
                assert(t[j] == minutes.fraction[j - 4 - wi]);
            }
        }
    }
    lemma_signed_decimal(t, wi + 2, 1 + wi);
    assert(t.subrange(1, 1 + wi) =~= dd);
    assert(t.subrange(1 + wi, 3 + wi) =~= minutes.integer);
    if minutes.fraction.len() > 0 {
        assert(t.skip(4 + wi) =~= minutes.fraction);
    }
    assert(crate::parser::fraction_of(t, wi + 2) =~= minutes.fraction);
    assert(decimal_of(t.skip(1 + wi)) == minutes);
    assert(digits_value(t.subrange(1, 1 + wi)) == degrees);
    assert(Sign::of_byte(t[0]) == sign);
    assert(is_ascii_chars(txt)) by {
        lemma_sign_ascii(sign);
        assert(is_ascii_chars(seq!['.']));
        if minutes.fraction.len() > 0 {
            lemma_ascii_join(seq!['.'], ascii_chars(minutes.fraction));
        }
        lemma_ascii_join(ascii_chars(minutes.integer), tail);
        lemma_ascii_join(zero_pad(nat_text(degrees), w), part_text(minutes, 4));
        lemma_ascii_join(seq![sign.symbol()], body);
    }
}

/// Degrees, minutes and seconds in normal form are written as one signed
/// number that reads back as the same angle.
#[verifier::rlimit(40)]
proof fn lemma_dms_roundtrip(
    sign: Sign,
    degrees: nat,
    minutes: nat,
    seconds: DecimalV,
    w: nat,
    limit: nat,
    component: Component,
)
    requires
        normal_angle(AngleV::Dms { sign, degrees, minutes, seconds }, w, limit),
        w >= 1,
        limit < pow10(w),
    ensures
        is_ascii_chars(angle_text(AngleV::Dms { sign, degrees, minutes, seconds }, w)),
        signed_text(ascii_bytes(angle_text(AngleV::Dms { sign, degrees, minutes, seconds }, w)), w as int + 4),
        dms_spec(ascii_bytes(angle_text(AngleV::Dms { sign, degrees, minutes, seconds }, w)), w as int, limit, component)
            == Ok::<AngleV, crate::error::ErrorV>(AngleV::Dms { sign, degrees, minutes, seconds }),
{
    let a = AngleV::Dms { sign, degrees, minutes, seconds };
    let txt = angle_text(a, w);
    let t = ascii_bytes(txt);
    let wi = w as int;
    lemma_pad_nat(degrees, w);
    assert(pow10(2) == 100) by {
        reveal_with_fuel(pow10, 3);
    }
    lemma_pad_nat(minutes, 2);
    lemma_part_exact(seconds, 6);
    lemma_digits_ascii(seconds.integer);
    lemma_digits_ascii(seconds.fraction);
    lemma_ascii_chars_bytes(seconds.integer);
    lemma_ascii_chars_bytes(seconds.fraction);
    lemma_decimal_compare(seconds, 60);
    let dd = ascii_bytes(zero_pad(nat_text(degrees), w));
    let mm = ascii_bytes(zero_pad(nat_text(minutes), 2));
    let tail = if seconds.fraction.len() == 0 {
        Seq::<char>::empty()
    } else {
        seq!['.'] + ascii_chars(seconds.fraction)
    };
    let tail_b = if seconds.fraction.len() == 0 {
        Seq::<u8>::empty()
    } else {
        seq![46u8] + seconds.fraction
    };
    assert(ascii_bytes(tail) =~= tail_b);
    let body = zero_pad(nat_text(degrees), w) + zero_pad(nat_text(minutes), 2) + part_text(
        seconds,
        6,
    );
    assert(txt == seq![sign.symbol()] + body);
    lemma_sign_bytes(sign, body);
    lemma_ascii_bytes_concat(
        zero_pad(nat_text(degrees), w) + zero_pad(nat_text(minutes), 2),
        part_text(seconds, 6),
    );
    lemma_ascii_bytes_concat(zero_pad(nat_text(degrees), w), zero_pad(nat_text(minutes), 2));
    lemma_ascii_bytes_concat(ascii_chars(seconds.integer), tail);
    assert(t =~= seq![sign_byte(sign)] + dd + mm + seconds.integer + tail_b);
    assert(signed_text(t, wi + 4)) by {
        assert forall|j: int| 1 <= j < 5 + wi implies is_digit(#[trigger] t[j]) by {
            if j < 1 + wi {
                assert(t[j] == dd[j - 1]);
            } else if j < 3 + wi {
                assert(t[j] == mm[j - 1 - wi]);
            } else {
                assert(t[j] == seconds.integer[j - 3 - wi]);
            }
        }
        if seconds.fraction.len() > 0 {
            assert forall|j: int| 6 + wi <= j < t.len() implies is_digit(#[trigger] t[j]) by {
                assert(t[j] == seconds.fraction[j - 6 - wi]);
            }
        }
    }
    lemma_signed_decimal(t, wi + 4, 3 + wi);
    assert(t.subrange(1, 1 + wi) =~= dd);
    assert(t.subrange(1 + wi, 3 + wi) =~= mm);
    assert(t.subrange(3 + wi, 5 + wi) =~= seconds.integer);
    if seconds.fraction.len() > 0 {
        assert(t.skip(6 + wi) =~= seconds.fraction);
    }
    assert(crate::parser::fraction_of(t, wi + 4) =~= seconds.fraction);
    assert(decimal_of(t.skip(3 + wi)) == seconds);
    assert(digits_value(t.subrange(1, 1 + wi)) == degrees);
    assert(digits_value(t.subrange(1 + wi, 3 + wi)) == minutes);
    assert(Sign::of_byte(t[0]) == sign);
    assert(is_ascii_chars(txt)) by {
        lemma_sign_ascii(sign);
        assert(is_ascii_chars(seq!['.']));
        if seconds.fraction.len() > 0 {
            lemma_ascii_join(seq!['.'], ascii_chars(seconds.fraction));
        }
        lemma_ascii_join(ascii_chars(seconds.integer), tail);
        lemma_ascii_join(zero_pad(nat_text(degrees), w), zero_pad(nat_text(minutes), 2));
        lemma_ascii_join(
            zero_pad(nat_text(degrees), w) + zero_pad(nat_text(minutes), 2),
            part_text(seconds, 6),
        );
        lemma_ascii_join(seq![sign.symbol()], body);
    }
}

/// An angle in normal form is written as one signed number that reads back as
/// the same angle.
pub proof fn lemma_angle_roundtrip(a: AngleV, w: nat, limit: nat, component: Component)
    requires
        normal_angle(a, w, limit),
        w >= 1,
        limit < pow10(w),
    ensures
        is_ascii_chars(angle_text(a, w)),
        ({
            let t = ascii_bytes(angle_text(a, w));
            match a {
                AngleV::Deg { .. } => signed_text(t, w as int) && deg_spec(t, limit, component)
                    == Ok::<AngleV, crate::error::ErrorV>(a),
                AngleV::DegMin { .. } => signed_text(t, w as int + 2) && deg_min_spec(
                    t,
                    w as int,
                    limit,
                    component,
                ) == Ok::<AngleV, crate::error::ErrorV>(a),
                AngleV::Dms { .. } => signed_text(t, w as int + 4) && dms_spec(t, w as int, limit, component)
                    == Ok::<AngleV, crate::error::ErrorV>(a),
            }
        }),
{
    match a {
        AngleV::Deg { sign, degrees } => lemma_deg_roundtrip(sign, degrees, w, limit, component),
        AngleV::DegMin { sign, degrees, minutes } => lemma_deg_min_roundtrip(
            sign,
            degrees,
            minutes,
            w,
            limit,
            component,
        ),
        AngleV::Dms { sign, degrees, minutes, seconds } => lemma_dms_roundtrip(
            sign,
            degrees,
            minutes,
            seconds,
            w,
            limit,
            component,
        ),
    }
}

// ---------------------------------------------------------------------------
// Altitude, CRS identifier, tail
// ---------------------------------------------------------------------------

/// An altitude written as `to_string` writes it: integer digits without
/// leading zeros, and fraction digits (if any) without trailing zeros.
pub open spec fn normal_altitude(a: AltitudeV) -> bool {
    &&& a.value.wf()
    &&& a.value.integer.len() >= 1
    &&& (a.value.integer.len() == 1 || a.value.integer[0] != 48)
    &&& (a.value.fraction.len() == 0 || a.value.fraction.last() != 48)
}

/// An ASCII letter or digit.
pub open spec fn is_alnum_char(c: char) -> bool {
    (c as u32) < 128 && is_alnum(c as u8)
}

/// A CRS identifier that the lexer reads back whole: one or more ASCII
/// letters and digits.
pub open spec fn normal_crs(id: Seq<char>) -> bool {
    id.len() >= 1 && forall|i: int| 0 <= i < id.len() ==> is_alnum_char(#[trigger] id[i])
}

/// The text after the longitude: altitude, CRS identifier, solidus.
pub open spec fn tail_text(alt: Option<AltitudeV>, crs: Option<Seq<char>>) -> Seq<char> {
    (match alt {
        Some(a) => altitude_text(a),
        None => Seq::empty(),
    }) + (match crs {
        Some(id) => crs_text(id),
        None => Seq::empty(),
    }) + seq!['/']
}

/// A coordinate that `to_string` writes in a form that reads back as itself.
pub open spec fn normal_coordinate(c: CoordinateV) -> bool {
    &&& normal_angle(c.latitude, 2, 90)
    &&& normal_angle(c.longitude, 3, 180)
    &&& (c.altitude matches Some(a) ==> normal_altitude(a))
    &&& (c.crs matches Some(id) ==> normal_crs(id))
}

/// An altitude in normal form is written as one signed number that reads
/// back as the same altitude.
proof fn lemma_altitude_roundtrip(a: AltitudeV)
    requires
        normal_altitude(a),
    ensures
        is_ascii_chars(altitude_text(a)),
        signed_text(ascii_bytes(altitude_text(a)), a.value.integer.len() as int),
        altitude_spec(ascii_bytes(altitude_text(a))) == a,
{
    let v = a.value;
    let n = v.integer.len() as int;
    lemma_digits_value_zero(v.fraction);
    lemma_digits_ascii(v.integer);
    lemma_digits_ascii(v.fraction);
    lemma_ascii_chars_bytes(v.integer);
    lemma_ascii_chars_bytes(v.fraction);
    if n == 1 {
        lemma_pad_digits(v.integer);
        lemma_nat_text_len(v.int_value());
    } else {
        lemma_nat_text_digits(v.integer);
    }
    assert(nat_text(v.int_value()) == ascii_chars(v.integer));
    let tail = if v.fraction.len() == 0 {
        Seq::<char>::empty()
    } else {
        seq!['.'] + ascii_chars(v.fraction)
    };
    let tail_b = if v.fraction.len() == 0 {
        Seq::<u8>::empty()
    } else {
        seq![46u8] + v.fraction
    };
    if v.fraction.len() > 0 {
        assert(!all_zero_digits(v.fraction)) by {
            assert(v.fraction[v.fraction.len() - 1] != 48);
        }
        lemma_trim_zeros(v.fraction, v.fraction.len() as int);
        assert(v.fraction.take(v.fraction.len() as int) =~= v.fraction);
    }
    assert(plain_text(v) == ascii_chars(v.integer) + tail) by {
        if v.fraction.len() == 0 {
            assert(ascii_chars(v.integer) + tail =~= ascii_chars(v.integer));
        } else {
            assert(ascii_chars(v.integer) + tail =~= ascii_chars(v.integer) + seq!['.']
                + ascii_chars(v.fraction));
        }
    }
    assert(ascii_bytes(tail) =~= tail_b);
    let body = plain_text(v);
    lemma_sign_bytes(a.sign, body);
    lemma_ascii_bytes_concat(ascii_chars(v.integer), tail);
    let t = ascii_bytes(altitude_text(a));
    assert(t =~= seq![sign_byte(a.sign)] + v.integer + tail_b);
    assert(signed_text(t, n)) by {
        assert forall|j: int| 1 <= j < 1 + n implies is_digit(#[trigger] t[j]) by {
            assert(t[j] == v.integer[j - 1]);
        }
        if v.fraction.len() > 0 {
            assert forall|j: int| 2 + n <= j < t.len() implies is_digit(#[trigger] t[j]) by {
                assert(t[j] == v.fraction[j - 2 - n]);
            }
        }
    }
    lemma_signed_decimal(t, n, 1);
    assert(t.subrange(1, 1 + n) =~= v.integer);
    if v.fraction.len() > 0 {
        assert(t.skip(2 + n) =~= v.fraction);
    }
    assert(crate::parser::fraction_of(t, n) =~= v.fraction);
    assert(is_ascii_chars(altitude_text(a))) by {
        lemma_sign_ascii(a.sign);
        assert(is_ascii_chars(seq!['.']));
        if v.fraction.len() > 0 {
            lemma_ascii_join(seq!['.'], ascii_chars(v.fraction));
        }
        lemma_ascii_join(ascii_chars(v.integer), tail);
        lemma_ascii_join(seq![a.sign.symbol()], body);
    }
}

/// The text of a CRS identifier in normal form: ASCII, and its bytes.
proof fn lemma_crs_bytes(id: Seq<char>)
    requires
        normal_crs(id),
    ensures
        is_ascii_chars(crs_text(id)),
        ascii_bytes(crs_text(id)) == seq![67u8, 82u8, 83u8] + ascii_bytes(id),
        forall|j: int| 0 <= j < id.len() ==> is_alnum(#[trigger] ascii_bytes(id)[j]),
        ascii_chars(ascii_bytes(id)) == id,
        ascii_bytes(id).len() == id.len(),
{
    assert(ascii_bytes(crs_text(id)) =~= seq![67u8, 82u8, 83u8] + ascii_bytes(id));
    assert forall|j: int| 0 <= j < id.len() implies is_alnum(#[trigger] ascii_bytes(id)[j]) by {
        assert(is_alnum_char(id[j]));
    }
    assert(ascii_chars(ascii_bytes(id)) =~= id) by {
        assert forall|j: int| 0 <= j < id.len() implies #[trigger] ascii_chars(ascii_bytes(id))[j] == id[j] by {
            assert(is_alnum_char(id[j]));
            let c = id[j];
            let u = c as u32;
            char_u32_cast(c, u);
            assert((c as u8) as u32 == u);
            assert(((c as u8) as char) == (u as char));
        }
    }
    assert forall|i: int| 0 <= i < crs_text(id).len() implies '\0' <= #[trigger] crs_text(id)[i] <= '\u{7f}' by {
        if i >= 3 {
            assert(crs_text(id)[i] == id[i - 3]);
            assert(is_alnum_char(id[i - 3]));
        }
    }
}

/// The tail in normal form reads back as the same altitude and CRS identifier.
#[verifier::spinoff_prover]
#[verifier::rlimit(60)]
proof fn lemma_tail_roundtrip(s: Seq<u8>, p: int, alt: Option<AltitudeV>, crs: Option<Seq<char>>)
    requires
        0 <= p,
        alt matches Some(a) ==> normal_altitude(a),
        crs matches Some(id) ==> normal_crs(id),
        p + tail_text(alt, crs).len() <= s.len(),
        s.subrange(p, p + tail_text(alt, crs).len()) == ascii_bytes(tail_text(alt, crs)),
    ensures
        is_ascii_chars(tail_text(alt, crs)),
        tail_spec(s, p) == Ok::<_, crate::error::ErrorV>((alt, crs, p + tail_text(alt, crs).len())),
        ends_number(s[p]),
{
    let x = tail_text(alt, crs);
    let at = match alt {
        Some(a) => altitude_text(a),
        None => Seq::<char>::empty(),
    };
    let ct = match crs {
        Some(id) => crs_text(id),
        None => Seq::<char>::empty(),
    };
    assert(x == at + ct + seq!['/']);
    lemma_ascii_bytes_concat(at + ct, seq!['/']);
    lemma_ascii_bytes_concat(at, ct);
    assert(ascii_bytes(seq!['/']) =~= seq![47u8]);
    let ab = ascii_bytes(at);
    let cb = ascii_bytes(ct);
    let q = p + ab.len();
    let r = q + cb.len();
    assert(ascii_bytes(x) == ab + cb + seq![47u8]);
    assert(s[r] == 47) by {
        assert(s[r] == s.subrange(p, p + x.len())[r - p]);
    }
    assert(is_ascii_chars(seq!['/']));
    match crs {
        Some(id) => {
            lemma_crs_bytes(id);
            let idb = ascii_bytes(id);
            assert(s.subrange(q, q + 3 + idb.len()) =~= seq![67u8, 82u8, 83u8] + idb) by {
                assert forall|j: int| 0 <= j < 3 + idb.len() implies #[trigger] s.subrange(
                    q,
                    q + 3 + idb.len(),
                )[j] == (seq![67u8, 82u8, 83u8] + idb)[j] by {
                    assert(s[q + j] == s.subrange(p, p + x.len())[q + j - p]);
                    assert(ascii_bytes(x)[q + j - p] == cb[j]);
                }
            }
            lemma_lex_crs_at(s, q, idb);
            assert(s.subrange(q + 3, r) =~= idb) by {
                assert forall|j: int| 0 <= j < idb.len() implies #[trigger] s.subrange(q + 3, r)[j]
                    == idb[j] by {
                    assert(s[q + 3 + j] == s.subrange(p, p + x.len())[q + 3 + j - p]);
                    assert(ascii_bytes(x)[q + 3 + j - p] == cb[3 + j]);
                }
            }
        },
        None => {},
    }
    match alt {
        Some(a) => {
            lemma_altitude_roundtrip(a);
            let n = a.value.integer.len() as int;
            assert(s.subrange(p, q) =~= ab) by {
                assert forall|j: int| 0 <= j < ab.len() implies #[trigger] s.subrange(p, q)[j]
                    == ab[j] by {
                    assert(s[p + j] == s.subrange(p, p + x.len())[j]);
                }
            }
            assert(ends_number(s[q])) by {
                assert(s[q] == s.subrange(p, p + x.len())[q - p]);
                assert(ascii_bytes(x)[q - p] == (cb + seq![47u8])[0]);
            }
            lemma_lex_signed_at(s, p, ab, n);
            assert(signed_kind(n) != TokenKind::Solidus && signed_kind(n) != TokenKind::CrsId);
            assert(s[p] == ab[0]);
            lemma_ascii_join(at, ct);
        },
        None => {
            assert(p == q);
            match crs {
                Some(id) => {
                    assert(s[q] == s.subrange(q, q + 3 + ascii_bytes(id).len())[0]);
                },
                None => {
                    assert(q == r);
                },
            }
        },
    }
    match crs {
        Some(id) => lemma_ascii_join(at, ct),
        None => {
            assert(ct =~= Seq::<char>::empty());
            assert(at + ct =~= at);
        },
    }
    match alt {
        Some(a) => {},
        None => {
            assert(at =~= Seq::<char>::empty());
            assert(at + ct =~= ct);
        },
    }
    lemma_ascii_join(at + ct, seq!['/']);
}

// ---------------------------------------------------------------------------
// The round trip
// ---------------------------------------------------------------------------

/// A latitude in normal form at the start of the input, followed by a byte
/// that ends a number, reads back as itself.
proof fn lemma_latitude_at(s: Seq<u8>, a: AngleV)
    requires
        normal_angle(a, 2, 90),
        angle_text(a, 2).len() < s.len(),
        s.subrange(0, angle_text(a, 2).len() as int) == ascii_bytes(angle_text(a, 2)),
        ends_number(s[angle_text(a, 2).len() as int]),
    ensures
        latitude_spec(s, 0) == Ok::<(AngleV, int), ErrorV>((a, angle_text(a, 2).len() as int)),
        is_ascii_chars(angle_text(a, 2)),
{
    reveal_with_fuel(pow10, 3);
    lemma_angle_roundtrip(a, 2, 90, Component::Latitude);
    let lb = ascii_bytes(angle_text(a, 2));
    let n: int = match a {
        AngleV::Deg { .. } => 2,
        AngleV::DegMin { .. } => 4,
        AngleV::Dms { .. } => 6,
    };
    lemma_lex_signed_at(s, 0, lb, n);
}

/// A longitude in normal form at position `p`, followed by a byte that ends
/// a number, reads back as itself.
proof fn lemma_longitude_at(s: Seq<u8>, p: int, a: AngleV)
    requires
        0 <= p,
        normal_angle(a, 3, 180),
        p + angle_text(a, 3).len() < s.len(),
        s.subrange(p, p + angle_text(a, 3).len()) == ascii_bytes(angle_text(a, 3)),
        ends_number(s[p + angle_text(a, 3).len()]),
    ensures
        longitude_spec(s, p) == Ok::<(AngleV, int), ErrorV>((a, p + angle_text(a, 3).len())),
        is_ascii_chars(angle_text(a, 3)),
        is_sign(s[p]),
{
    reveal_with_fuel(pow10, 4);
    lemma_angle_roundtrip(a, 3, 180, Component::Longitude);
    let ob = ascii_bytes(angle_text(a, 3));
    let n: int = match a {
        AngleV::Deg { .. } => 3,
        AngleV::DegMin { .. } => 5,
        AngleV::Dms { .. } => 7,
    };
    lemma_lex_signed_at(s, p, ob, n);
    assert(s[p] == ob[0]);
}

/// Round trip: a coordinate in normal form, written by `to_string` and parsed
/// again, is the same coordinate.
#[verifier::spinoff_prover]
#[verifier::rlimit(40)]
pub proof fn law_roundtrip(c: CoordinateV)
    requires
        normal_coordinate(c),
    ensures
        is_ascii_chars(coordinate_text(c)),
        parse_spec(encode_utf8(coordinate_text(c))) == Ok::<CoordinateV, ErrorV>(c),
{
    let l = angle_text(c.latitude, 2);
    let o = angle_text(c.longitude, 3);
    let x = tail_text(c.altitude, c.crs);
    let t = coordinate_text(c);
    assert(t =~= l + o + x);
    let lb = ascii_bytes(l);
    let ob = ascii_bytes(o);
    let xb = ascii_bytes(x);
    lemma_ascii_bytes_concat(l + o, x);
    lemma_ascii_bytes_concat(l, o);
    let s = lb + ob + xb;
    assert(ascii_bytes(t) == s);
    let p1 = lb.len() as int;
    let p2 = p1 + ob.len();
    assert(s.subrange(p2, p2 + x.len()) =~= xb);
    lemma_tail_roundtrip(s, p2, c.altitude, c.crs);
    assert(s.subrange(p1, p2) =~= ob);
    lemma_longitude_at(s, p1, c.longitude);
    assert(s.subrange(0, p1) =~= lb);
    lemma_latitude_at(s, c.latitude);
    lemma_ascii_join(l, o);
    lemma_ascii_join(l + o, x);
    is_ascii_chars_encode_utf8(t);
    assert(encode_utf8(t) =~= s);
}

} // verus!
