//! The ISO 6709 grammar: `±Latitude±Longitude[±Altitude][CRS<id>]/`.
use vstd::prelude::*;
use vstd::slice::slice_subrange;
use vstd::string::{StrSliceExecFns, StringSliceAdditionalSpecFns};
use vstd::utf8::{
    char_is_scalar, char_u32_cast, encode_scalar, encode_utf8, has_width_1_encoding,
};

use crate::decimal::{decimal_of, Decimal, DecimalV};
use crate::digits::{digit2, digit3, digits_end, digits_value, is_digit, is_number_text, lemma_digits_end, lemma_digits_end_at};
use crate::error::{Amount, AmountV, Component, ErrorV, ParseError};
use crate::token::{is_alnum, is_sign, is_signed_kind, lemma_alnum_end, lemma_lex_bounds, lex, signed_kind, Lexed, Lexer, Token};
use crate::types::{
    altitude_view, crs_view, Altitude, AltitudeV, AngleV, Coordinate, CoordinateV, CrsId, LatDMS, LatDeg, LatDegMin,
    Latitude, LonDMS, LonDeg, LonDegMin, Longitude, Sign,
};

verus! {

/// What a latitude is expected to look like.
pub const EXPECT_LATITUDE: &'static str = "latitude (±DD, ±DDMM, or ±DDMMSS)";

/// What a longitude is expected to look like.
pub const EXPECT_LONGITUDE: &'static str = "longitude (±DDD, ±DDDMM, or ±DDDMMSS)";

/// What may follow the longitude.
pub const EXPECT_TAIL: &'static str = "altitude, CRS identifier, or '/'";

/// What may follow the altitude.
pub const EXPECT_CRS_OR_SOLIDUS: &'static str = "CRS identifier or '/'";

/// What must follow the CRS identifier.
pub const EXPECT_SOLIDUS: &'static str = "'/'";

/// What must follow the solidus: nothing.
pub const EXPECT_END: &'static str = "end of input after '/'";

// ---------------------------------------------------------------------------
// The grammar, as spec functions
// ---------------------------------------------------------------------------

/// `t` is a sign, `n` digits, and optionally `.` followed by one or more digits.
pub open spec fn signed_text(t: Seq<u8>, n: int) -> bool {
    &&& n >= 1
    &&& t.len() >= 1 + n
    &&& is_sign(t[0])
    &&& forall|j: int| 1 <= j < 1 + n ==> is_digit(#[trigger] t[j])
    &&& (t.len() == 1 + n || (t[1 + n] == 46 && t.len() > 2 + n && forall|j: int|
        2 + n <= j < t.len() ==> is_digit(#[trigger] t[j])))
}

/// The fraction digits of a signed number text with `n` integer digits.
pub open spec fn fraction_of(t: Seq<u8>, n: int) -> Seq<u8> {
    if t.len() > 1 + n {
        t.skip(2 + n)
    } else {
        Seq::empty()
    }
}

/// The `Err` of an out-of-range component.
pub open spec fn out_of_range(component: Component, value: AmountV) -> ErrorV {
    ErrorV::OutOfRange { component, value }
}

/// `±D+[.D+]` read as decimal degrees, at most `limit`.
pub open spec fn deg_spec(t: Seq<u8>, limit: nat, component: Component) -> Result<AngleV, ErrorV> {
    let degrees = decimal_of(t.skip(1));
    if degrees.greater_than(limit) {
        Err(out_of_range(component, AmountV::of(degrees)))
    } else {
        Ok(AngleV::Deg { sign: Sign::of_byte(t[0]), degrees })
    }
}

/// `±` then `w` degree digits, then minutes `MM[.M+]`; degrees at most
/// `limit`, minutes below 60, and no minutes at the limit.
pub open spec fn deg_min_spec(t: Seq<u8>, w: int, limit: nat, component: Component) -> Result<
    AngleV,
    ErrorV,
> {
    let dd = t.subrange(1, 1 + w);
    let degrees = digits_value(dd);
    let minutes = decimal_of(t.skip(1 + w));
    if degrees > limit {
        Err(out_of_range(component, AmountV::of(DecimalV::whole(dd))))
    } else if minutes.at_least(60) {
        Err(out_of_range(Component::Minutes, AmountV::of(minutes)))
    } else if degrees == limit && !minutes.is_zero() {
        Err(
            out_of_range(
                component,
                AmountV { whole: DecimalV::whole(dd), minutes, seconds: DecimalV::zero() },
            ),
        )
    } else {
        Ok(AngleV::DegMin { sign: Sign::of_byte(t[0]), degrees, minutes })
    }
}

/// `±` then `w` degree digits, two minute digits, then seconds `SS[.S+]`;
/// degrees at most `limit`, minutes and seconds below 60, nothing past the limit.
pub open spec fn dms_spec(t: Seq<u8>, w: int, limit: nat, component: Component) -> Result<
    AngleV,
    ErrorV,
> {
    let dd = t.subrange(1, 1 + w);
    let degrees = digits_value(dd);
    let mm = t.subrange(1 + w, 3 + w);
    let minutes = digits_value(mm);
    let seconds = decimal_of(t.skip(3 + w));
    if degrees > limit {
        Err(out_of_range(component, AmountV::of(DecimalV::whole(dd))))
    } else if minutes >= 60 {
        Err(out_of_range(Component::Minutes, AmountV::of(DecimalV::whole(mm))))
    } else if seconds.at_least(60) {
        Err(out_of_range(Component::Seconds, AmountV::of(seconds)))
    } else if degrees == limit && (minutes != 0 || !seconds.is_zero()) {
        Err(
            out_of_range(
                component,
                AmountV { whole: DecimalV::whole(dd), minutes: DecimalV::whole(mm), seconds },
            ),
        )
    } else {
        Ok(AngleV::Dms { sign: Sign::of_byte(t[0]), degrees, minutes, seconds })
    }
}

/// An angle together with the position after its token.
pub open spec fn at_end(r: Result<AngleV, ErrorV>, end: int) -> Result<(AngleV, int), ErrorV> {
    match r {
        Ok(a) => Ok((a, end)),
        Err(e) => Err(e),
    }
}

/// The `Unexpected` error at `position`.
pub open spec fn unexpected(position: int, expected: &'static str) -> ErrorV {
    ErrorV::Unexpected { position: position as nat, expected }
}

/// The latitude at `pos`: `±DD[.D+]`, `±DDMM[.M+]` or `±DDMMSS[.S+]`.
pub open spec fn latitude_spec(s: Seq<u8>, pos: int) -> Result<(AngleV, int), ErrorV> {
    match lex(s, pos) {
        Lexed::Token { kind, end } => {
            let t = s.subrange(pos, end);
            if kind is Signed2 {
                at_end(deg_spec(t, 90, Component::Latitude), end)
            } else if kind is Signed4 {
                at_end(deg_min_spec(t, 2, 90, Component::Latitude), end)
            } else if kind is Signed6 {
                at_end(dms_spec(t, 2, 90, Component::Latitude), end)
            } else {
                Err(unexpected(pos, EXPECT_LATITUDE))
            }
        },
        _ => Err(unexpected(pos, EXPECT_LATITUDE)),
    }
}

/// The longitude at `pos`: `±DDD[.D+]`, `±DDDMM[.M+]` or `±DDDMMSS[.S+]`.
pub open spec fn longitude_spec(s: Seq<u8>, pos: int) -> Result<(AngleV, int), ErrorV> {
    match lex(s, pos) {
        Lexed::Token { kind, end } => {
            let t = s.subrange(pos, end);
            if kind is Signed3 {
                at_end(deg_spec(t, 180, Component::Longitude), end)
            } else if kind is Signed5 {
                at_end(deg_min_spec(t, 3, 180, Component::Longitude), end)
            } else if kind is Signed7 {
                at_end(dms_spec(t, 3, 180, Component::Longitude), end)
            } else {
                Err(unexpected(pos, EXPECT_LONGITUDE))
            }
        },
        _ => Err(unexpected(pos, EXPECT_LONGITUDE)),
    }
}

/// An altitude token read as a signed decimal.
pub open spec fn altitude_spec(t: Seq<u8>) -> AltitudeV {
    AltitudeV { sign: Sign::of_byte(t[0]), value: decimal_of(t.skip(1)) }
}

/// ASCII bytes read as characters.
pub open spec fn ascii_chars(t: Seq<u8>) -> Seq<char> {
    t.map_values(|b: u8| b as char)
}

/// The identifier of the `CRS` token that spans `[a, b)`.
pub open spec fn crs_spec(s: Seq<u8>, a: int, b: int) -> Seq<char> {
    ascii_chars(s.subrange(a + 3, b))
}

/// The solidus at `pos`, and the position after it.
pub open spec fn solidus_spec(s: Seq<u8>, pos: int) -> Result<int, ErrorV> {
    match lex(s, pos) {
        Lexed::Token { kind, end } => if kind is Solidus {
            Ok(end)
        } else {
            Err(unexpected(pos, EXPECT_SOLIDUS))
        },
        _ => Err(unexpected(pos, EXPECT_SOLIDUS)),
    }
}

/// What follows the longitude: `[±Altitude][CRS<id>]/`, and the position
/// after the solidus.
pub open spec fn tail_spec(s: Seq<u8>, pos: int) -> Result<
    (Option<AltitudeV>, Option<Seq<char>>, int),
    ErrorV,
> {
    match lex(s, pos) {
        Lexed::Token { kind, end } => if kind is Solidus {
            Ok((None, None, end))
        } else if kind is CrsId {
            match solidus_spec(s, end) {
                Ok(e) => Ok((None, Some(crs_spec(s, pos, end)), e)),
                Err(err) => Err(err),
            }
        } else {
            let alt = altitude_spec(s.subrange(pos, end));
            match lex(s, end) {
                Lexed::Token { kind: k2, end: e2 } => if k2 is CrsId {
                    match solidus_spec(s, e2) {
                        Ok(e) => Ok((Some(alt), Some(crs_spec(s, end, e2)), e)),
                        Err(err) => Err(err),
                    }
                } else if k2 is Solidus {
                    Ok((Some(alt), None, e2))
                } else {
                    Err(unexpected(end, EXPECT_CRS_OR_SOLIDUS))
                },
                _ => Err(unexpected(end, EXPECT_CRS_OR_SOLIDUS)),
            }
        },
        _ => Err(unexpected(pos, EXPECT_TAIL)),
    }
}

/// The coordinate that the bytes `s` start with, and the position after its
/// solidus; whatever follows the solidus is not read.
pub open spec fn coordinate_spec(s: Seq<u8>) -> Result<(CoordinateV, int), ErrorV> {
    match latitude_spec(s, 0) {
        Err(e) => Err(e),
        Ok((latitude, p1)) => match longitude_spec(s, p1) {
            Err(e) => Err(e),
            Ok((longitude, p2)) => match tail_spec(s, p2) {
                Err(e) => Err(e),
                Ok((altitude, crs, p3)) => Ok((CoordinateV { latitude, longitude, altitude, crs }, p3)),
            },
        },
    }
}

/// The result of parsing the bytes `s`: one coordinate, and nothing after
/// its solidus.
pub open spec fn parse_spec(s: Seq<u8>) -> Result<CoordinateV, ErrorV> {
    match coordinate_spec(s) {
        Ok((c, e)) => if e == s.len() {
            Ok(c)
        } else {
            Err(unexpected(e, EXPECT_END))
        },
        Err(e) => Err(e),
    }
}

/// A result, with both sides taken by their views.
pub open spec fn view_result<T: View, E: View>(r: Result<T, E>) -> Result<T::V, E::V> {
    match r {
        Ok(t) => Ok(t@),
        Err(e) => Err(e@),
    }
}

/// The bytes before `n` are ASCII.
pub open spec fn ascii_before(s: Seq<u8>, n: int) -> bool {
    forall|j: int| 0 <= j < n ==> #[trigger] s[j] < 128
}

// ---------------------------------------------------------------------------
// Facts about tokens
// ---------------------------------------------------------------------------

/// A signed token is a sign, its digits and an optional fraction.
pub proof fn lemma_lex_signed(s: Seq<u8>, i: int)
    requires
        0 <= i,
        lex(s, i) is Token,
        is_signed_kind(lex(s, i)->kind),
    ensures
        signed_text(s.subrange(i, lex(s, i)->end), digits_end(s, i + 1) - (i + 1)),
        lex(s, i)->kind == signed_kind(digits_end(s, i + 1) - (i + 1)),
        i < lex(s, i)->end <= s.len(),
{
    let e = digits_end(s, i + 1);
    lemma_digits_end(s, i + 1);
    let end = lex(s, i)->end;
    let t = s.subrange(i, end);
    let n = e - (i + 1);
    if e + 1 < s.len() && s[e] == 46 && is_digit(s[e + 1]) {
        lemma_digits_end(s, e + 1);
        assert forall|j: int| 2 + n <= j < t.len() implies is_digit(#[trigger] t[j]) by {
            assert(t[j] == s[i + j]);
        }
    }
    assert forall|j: int| 1 <= j < 1 + n implies is_digit(#[trigger] t[j]) by {
        assert(t[j] == s[i + j]);
    }
}

/// The bytes of every token are ASCII.
pub proof fn lemma_lex_ascii(s: Seq<u8>, i: int)
    requires
        0 <= i,
        lex(s, i) is Token,
    ensures
        forall|j: int| i <= j < lex(s, i)->end ==> #[trigger] s[j] < 128,
        ascii_before(s, i) ==> ascii_before(s, lex(s, i)->end),
        i < lex(s, i)->end <= s.len(),
        lex(s, i)->kind is CrsId ==> i + 3 < lex(s, i)->end,
{
    lemma_lex_bounds(s, i);
    let end = lex(s, i)->end;
    if is_signed_kind(lex(s, i)->kind) {
        lemma_lex_signed(s, i);
        let t = s.subrange(i, end);
        let n = digits_end(s, i + 1) - (i + 1);
        assert forall|j: int| i <= j < end implies #[trigger] s[j] < 128 by {
            assert(s[j] == t[j - i]);
            if j - i >= 1 && j - i < 1 + n {
                assert(is_digit(t[j - i]));
            } else if j - i >= 2 + n {
                assert(is_digit(t[j - i]));
            }
        }
    } else if lex(s, i)->kind is CrsId {
        lemma_alnum_end(s, i + 3);
        assert forall|j: int| i <= j < end implies #[trigger] s[j] < 128 by {
            if j >= i + 3 {
                assert(is_alnum(s[j]));
            }
        }
    }
    if ascii_before(s, i) {
        assert forall|j: int| 0 <= j < end implies #[trigger] s[j] < 128 by {
            if j >= i {
                assert(s[j] < 128);
            }
        }
    }
}

/// The decimal that follows the first `k` bytes of a signed number text.
pub proof fn lemma_signed_decimal(t: Seq<u8>, n: int, k: int)
    requires
        signed_text(t, n),
        1 <= k <= n,
    ensures
        is_number_text(t.skip(k)),
        decimal_of(t.skip(k)) == (DecimalV {
            integer: t.subrange(k, 1 + n),
            fraction: fraction_of(t, n),
        }),
{
    let u = t.skip(k);
    let m = 1 + n - k;
    assert forall|j: int| 0 <= j < m implies is_digit(#[trigger] u[j]) by {
        assert(u[j] == t[k + j]);
    }
    lemma_digits_end_at(u, 0, m);
    if t.len() > 1 + n {
        assert(u[m] == t[1 + n]);
        assert forall|j: int| m + 1 <= j < u.len() implies is_digit(#[trigger] u[j]) by {
            assert(u[j] == t[k + j]);
        }
        lemma_digits_end_at(u, m + 1, u.len() as int);
        assert(u.skip(m + 1) =~= t.skip(2 + n));
    }
    assert(u.take(m) =~= t.subrange(k, 1 + n));
}

/// If the first `n` bytes of the UTF-8 encoding of `cs` are ASCII, then they
/// are the first `n` characters of `cs`.
pub proof fn lemma_ascii_prefix(cs: Seq<char>, n: int)
    requires
        0 <= n <= encode_utf8(cs).len(),
        ascii_before(encode_utf8(cs), n),
    ensures
        n <= cs.len(),
        forall|j: int| 0 <= j < n ==> cs[j] == (#[trigger] encode_utf8(cs)[j] as char),
    decreases cs.len(),
{
    if n > 0 {
        let bytes = encode_utf8(cs);
        let rest = cs.drop_first();
        let c = cs[0] as u32;
        char_is_scalar(cs[0]);
        let head = encode_scalar(c);
        assert(bytes == head + encode_utf8(rest));
        assert(bytes[0] == head[0]);
        if !has_width_1_encoding(c) {
            let x = ((c >> 6) & 0x1F) as u8;
            let y = ((c >> 12) & 0x0F) as u8;
            let z = ((c >> 18) & 0x7) as u8;
            assert((0xC0u8 | x) >= 0xC0) by (bit_vector);
            assert((0xE0u8 | y) >= 0xE0) by (bit_vector);
            assert((0xF0u8 | z) >= 0xF0) by (bit_vector);
            assert(false);
        }
        assert(head.len() == 1);
        assert((c & 0x7F) as u8 == c) by (bit_vector)
            requires
                c <= 0x7F,
        ;
        char_u32_cast(cs[0], c);
        assert(bytes[0] as u32 == c);
        let rb = encode_utf8(rest);
        assert forall|j: int| 0 <= j < n - 1 implies #[trigger] rb[j] < 128 by {
            assert(rb[j] == bytes[j + 1]);
        }
        lemma_ascii_prefix(rest, n - 1);
        assert forall|j: int| 0 <= j < n implies cs[j] == (#[trigger] bytes[j] as char) by {
            if j > 0 {
                assert(bytes[j] == rb[j - 1]);
                assert(cs[j] == rest[j - 1]);
            }
        }
    }
}

// ---------------------------------------------------------------------------
// The parser
// ---------------------------------------------------------------------------

/// Parses an ISO 6709 coordinate string.
///
/// The input must be a single coordinate terminated by a solidus (`/`);
/// bytes after the solidus are refused.
///
/// ```text
/// ±Latitude±Longitude[±Altitude][CRS<id>]/
/// ```
///
/// Where latitude/longitude can be in one of three forms:
/// - Decimal degrees: `±DD.DDD` / `±DDD.DDD`
/// - Degrees + minutes: `±DDMM.MMM` / `±DDDMM.MMM`
/// - DMS: `±DDMMSS.SSS` / `±DDDMMSS.SSS`
pub fn parse(input: &str) -> (r: Result<Coordinate<'_>, ParseError>)
    ensures
        view_result(r) == parse_spec(input.spec_bytes()),
{
    let mut lexer = Lexer::new(input.as_bytes());
    parse_coordinate(&mut lexer, input)
}

fn parse_coordinate<'a>(lexer: &mut Lexer<'a>, input: &'a str) -> (r: Result<
    Coordinate<'a>,
    ParseError,
>)
    requires
        old(lexer).src() == input.spec_bytes(),
        old(lexer).end() == 0,
    ensures
        view_result(r) == parse_spec(input.spec_bytes()),
{
    let latitude = match parse_latitude(lexer) {
        Ok(v) => v,
        Err(e) => return Err(e),
    };
    let longitude = match parse_longitude(lexer) {
        Ok(v) => v,
        Err(e) => return Err(e),
    };
    let (altitude, crs) = match parse_tail(lexer, input) {
        Ok(v) => v,
        Err(e) => return Err(e),
    };
    let end = lexer.span().end;
    if end != input.as_bytes().len() {
        return Err(ParseError::Unexpected { position: end, expected: EXPECT_END });
    }
    Ok(Coordinate::new(latitude, longitude, altitude, crs))
}

fn next_token<'a>(lexer: &mut Lexer<'a>, expected: &'static str) -> (r: Result<Token<'a>, ParseError>)
    ensures
        final(lexer).src() == old(lexer).src(),
        final(lexer).start() == old(lexer).end(),
        match lex(old(lexer).src(), old(lexer).end()) {
            Lexed::Token { kind, end } => r matches Ok(t) && t.kind() == kind && t.text()
                == old(lexer).src().subrange(old(lexer).end(), end) && final(lexer).end() == end,
            _ => r matches Err(e) && e@ == unexpected(old(lexer).end(), expected),
        },
{
    match lexer.next() {
        Some(Ok(tok)) => Ok(tok),
        Some(Err(())) => Err(ParseError::Unexpected { position: lexer.span().start, expected }),
        None => Err(ParseError::Unexpected { position: lexer.span().end, expected }),
    }
}

// ---------------------------------------------------------------------------
// Latitude parsing
// ---------------------------------------------------------------------------

fn parse_latitude<'a>(lexer: &mut Lexer<'a>) -> (r: Result<Latitude, ParseError>)
    requires
        ascii_before(old(lexer).src(), old(lexer).end()),
    ensures
        final(lexer).src() == old(lexer).src(),
        match latitude_spec(old(lexer).src(), old(lexer).end()) {
            Ok((a, e)) => r matches Ok(v) && v@ == a && final(lexer).end() == e && ascii_before(
                old(lexer).src(),
                e,
            ),
            Err(err) => r matches Err(x) && x@ == err,
        },
{
    let ghost s = lexer.src();
    let ghost pos = lexer.end();
    proof {
        lexer.lemma_nonneg();
    }
    let tok = match next_token(lexer, EXPECT_LATITUDE) {
        Ok(t) => t,
        Err(e) => return Err(e),
    };
    proof {
        lemma_lex_ascii(s, pos);
        if is_signed_kind(tok.kind()) {
            lemma_lex_signed(s, pos);
        }
    }
    match tok {
        Token::Signed2(t) => parse_lat_deg(t),
        Token::Signed4(t) => parse_lat_deg_min(t),
        Token::Signed6(t) => parse_lat_dms(t),
        _ => Err(ParseError::Unexpected { position: lexer.span().start, expected: EXPECT_LATITUDE }),
    }
}

/// Parse `±DD[.D+]` into `Latitude::Deg`.
fn parse_lat_deg(s: &[u8]) -> (r: Result<Latitude, ParseError>)
    requires
        signed_text(s@, 2),
    ensures
        view_result(r) == deg_spec(s@, 90, Component::Latitude),
{
    proof {
        lemma_signed_decimal(s@, 2, 1);
    }
    let sign = Sign::from_byte(s[0]);
    let degrees = Decimal::from_number_bytes(slice_subrange(s, 1, s.len()));
    assert(s@.subrange(1, s@.len() as int) =~= s@.skip(1));
    if degrees.greater_than(90) {
        return Err(ParseError::OutOfRange { component: Component::Latitude, value: Amount::of(degrees) });
    }
    Ok(Latitude::Deg(LatDeg::new(sign, degrees)))
}

/// Parse `±DDMM[.M+]` into `Latitude::DegMin`.
fn parse_lat_deg_min(s: &[u8]) -> (r: Result<Latitude, ParseError>)
    requires
        signed_text(s@, 4),
    ensures
        view_result(r) == deg_min_spec(s@, 2, 90, Component::Latitude),
{
    proof {
        lemma_signed_decimal(s@, 4, 3);
    }
    let sign = Sign::from_byte(s[0]);
    let dd = slice_subrange(s, 1, 3);
    assert(dd@.take(2) =~= dd@);
    let degrees = digit2(dd);
    if degrees > 90 {
        return Err(ParseError::OutOfRange {
            component: Component::Latitude,
            value: Amount::of(Decimal::from_int_digits(dd)),
        });
    }
    let minutes = Decimal::from_number_bytes(slice_subrange(s, 3, s.len()));
    assert(s@.subrange(3, s@.len() as int) =~= s@.skip(3));
    if minutes.at_least(60) {
        return Err(ParseError::OutOfRange { component: Component::Minutes, value: Amount::of(minutes) });
    }
    if degrees == 90 && !minutes.is_zero() {
        return Err(ParseError::OutOfRange {
            component: Component::Latitude,
            value: Amount::new(Decimal::from_int_digits(dd), minutes, Decimal::zero()),
        });
    }
    Ok(Latitude::DegMin(LatDegMin::new(sign, degrees, minutes)))
}

/// Parse `±DDMMSS[.S+]` into `Latitude::DMS`.
fn parse_lat_dms(s: &[u8]) -> (r: Result<Latitude, ParseError>)
    requires
        signed_text(s@, 6),
    ensures
        view_result(r) == dms_spec(s@, 2, 90, Component::Latitude),
{
    proof {
        lemma_signed_decimal(s@, 6, 5);
    }
    let sign = Sign::from_byte(s[0]);
    let dd = slice_subrange(s, 1, 3);
    assert(dd@.take(2) =~= dd@);
    let degrees = digit2(dd);
    if degrees > 90 {
        return Err(ParseError::OutOfRange {
            component: Component::Latitude,
            value: Amount::of(Decimal::from_int_digits(dd)),
        });
    }
    let mm = slice_subrange(s, 3, 5);
    assert(mm@.take(2) =~= mm@);
    let minutes = digit2(mm);
    if minutes >= 60 {
        return Err(ParseError::OutOfRange {
            component: Component::Minutes,
            value: Amount::of(Decimal::from_int_digits(mm)),
        });
    }
    let seconds = Decimal::from_number_bytes(slice_subrange(s, 5, s.len()));
    assert(s@.subrange(5, s@.len() as int) =~= s@.skip(5));
    if seconds.at_least(60) {
        return Err(ParseError::OutOfRange { component: Component::Seconds, value: Amount::of(seconds) });
    }
    if degrees == 90 && (minutes != 0 || !seconds.is_zero()) {
        return Err(ParseError::OutOfRange {
            component: Component::Latitude,
            value: Amount::new(Decimal::from_int_digits(dd), Decimal::from_int_digits(mm), seconds),
        });
    }
    Ok(Latitude::DMS(LatDMS::new(sign, degrees, minutes, seconds)))
}

// ---------------------------------------------------------------------------
// Longitude parsing
// ---------------------------------------------------------------------------

fn parse_longitude<'a>(lexer: &mut Lexer<'a>) -> (r: Result<Longitude, ParseError>)
    requires
        ascii_before(old(lexer).src(), old(lexer).end()),
    ensures
        final(lexer).src() == old(lexer).src(),
        match longitude_spec(old(lexer).src(), old(lexer).end()) {
            Ok((a, e)) => r matches Ok(v) && v@ == a && final(lexer).end() == e && ascii_before(
                old(lexer).src(),
                e,
            ),
            Err(err) => r matches Err(x) && x@ == err,
        },
{
    let ghost s = lexer.src();
    let ghost pos = lexer.end();
    proof {
        lexer.lemma_nonneg();
    }
    let tok = match next_token(lexer, EXPECT_LONGITUDE) {
        Ok(t) => t,
        Err(e) => return Err(e),
    };
    proof {
        lemma_lex_ascii(s, pos);
        if is_signed_kind(tok.kind()) {
            lemma_lex_signed(s, pos);
        }
    }
    match tok {
        Token::Signed3(t) => parse_lon_deg(t),
        Token::Signed5(t) => parse_lon_deg_min(t),
        Token::Signed7(t) => parse_lon_dms(t),
        _ => Err(ParseError::Unexpected { position: lexer.span().start, expected: EXPECT_LONGITUDE }),
    }
}

/// Parse `±DDD[.D+]` into `Longitude::Deg`.
fn parse_lon_deg(s: &[u8]) -> (r: Result<Longitude, ParseError>)
    requires
        signed_text(s@, 3),
    ensures
        view_result(r) == deg_spec(s@, 180, Component::Longitude),
{
    proof {
        lemma_signed_decimal(s@, 3, 1);
    }
    let sign = Sign::from_byte(s[0]);
    let degrees = Decimal::from_number_bytes(slice_subrange(s, 1, s.len()));
    assert(s@.subrange(1, s@.len() as int) =~= s@.skip(1));
    if degrees.greater_than(180) {
        return Err(ParseError::OutOfRange { component: Component::Longitude, value: Amount::of(degrees) });
    }
    Ok(Longitude::Deg(LonDeg::new(sign, degrees)))
}

/// Parse `±DDDMM[.M+]` into `Longitude::DegMin`.
fn parse_lon_deg_min(s: &[u8]) -> (r: Result<Longitude, ParseError>)
    requires
        signed_text(s@, 5),
    ensures
        view_result(r) == deg_min_spec(s@, 3, 180, Component::Longitude),
{
    proof {
        lemma_signed_decimal(s@, 5, 4);
    }
    let sign = Sign::from_byte(s[0]);
    let ddd = slice_subrange(s, 1, 4);
    assert(ddd@.take(3) =~= ddd@);
    let degrees = digit3(ddd);
    if degrees > 180 {
        return Err(ParseError::OutOfRange {
            component: Component::Longitude,
            value: Amount::of(Decimal::from_int_digits(ddd)),
        });
    }
    let minutes = Decimal::from_number_bytes(slice_subrange(s, 4, s.len()));
    assert(s@.subrange(4, s@.len() as int) =~= s@.skip(4));
    if minutes.at_least(60) {
        return Err(ParseError::OutOfRange { component: Component::Minutes, value: Amount::of(minutes) });
    }
    if degrees == 180 && !minutes.is_zero() {
        return Err(ParseError::OutOfRange {
            component: Component::Longitude,
            value: Amount::new(Decimal::from_int_digits(ddd), minutes, Decimal::zero()),
        });
    }
    Ok(Longitude::DegMin(LonDegMin::new(sign, degrees, minutes)))
}

/// Parse `±DDDMMSS[.S+]` into `Longitude::DMS`.
fn parse_lon_dms(s: &[u8]) -> (r: Result<Longitude, ParseError>)
    requires
        signed_text(s@, 7),
    ensures
        view_result(r) == dms_spec(s@, 3, 180, Component::Longitude),
{
    proof {
        lemma_signed_decimal(s@, 7, 6);
    }
    let sign = Sign::from_byte(s[0]);
    let ddd = slice_subrange(s, 1, 4);
    assert(ddd@.take(3) =~= ddd@);
    let degrees = digit3(ddd);
    if degrees > 180 {
        return Err(ParseError::OutOfRange {
            component: Component::Longitude,
            value: Amount::of(Decimal::from_int_digits(ddd)),
        });
    }
    let mm = slice_subrange(s, 4, 6);
    assert(mm@.take(2) =~= mm@);
    let minutes = digit2(mm);
    if minutes >= 60 {
        return Err(ParseError::OutOfRange {
            component: Component::Minutes,
            value: Amount::of(Decimal::from_int_digits(mm)),
        });
    }
    let seconds = Decimal::from_number_bytes(slice_subrange(s, 6, s.len()));
    assert(s@.subrange(6, s@.len() as int) =~= s@.skip(6));
    if seconds.at_least(60) {
        return Err(ParseError::OutOfRange { component: Component::Seconds, value: Amount::of(seconds) });
    }
    if degrees == 180 && (minutes != 0 || !seconds.is_zero()) {
        return Err(ParseError::OutOfRange {
            component: Component::Longitude,
            value: Amount::new(Decimal::from_int_digits(ddd), Decimal::from_int_digits(mm), seconds),
        });
    }
    Ok(Longitude::DMS(LonDMS::new(sign, degrees, minutes, seconds)))
}

// ---------------------------------------------------------------------------
// Tail: optional altitude, CRS, solidus
// ---------------------------------------------------------------------------

fn parse_tail<'a>(lexer: &mut Lexer<'a>, input: &'a str) -> (r: Result<
    (Option<Altitude>, Option<CrsId<'a>>),
    ParseError,
>)
    requires
        old(lexer).src() == input.spec_bytes(),
        ascii_before(old(lexer).src(), old(lexer).end()),
    ensures
        final(lexer).src() == old(lexer).src(),
        match tail_spec(old(lexer).src(), old(lexer).end()) {
            Ok((alt, crs, e)) => r matches Ok(v) && altitude_view(v.0) == alt && crs_view(v.1)
                == crs && final(lexer).end() == e,
            Err(err) => r matches Err(x) && x@ == err,
        },
{
    let ghost s = lexer.src();
    let ghost pos = lexer.end();
    proof {
        lexer.lemma_nonneg();
    }
    let tok = match next_token(lexer, EXPECT_TAIL) {
        Ok(t) => t,
        Err(e) => return Err(e),
    };
    proof {
        lemma_lex_ascii(s, pos);
    }
    match tok {
        Token::Solidus => Ok((None, None)),
        Token::CrsId(_) => {
            let crs = crs_at(lexer, input);
            match expect_solidus(lexer) {
                Ok(()) => Ok((None, Some(crs))),
                Err(e) => Err(e),
            }
        },
        _ => {
            proof {
                lemma_lex_signed(s, pos);
            }
            let t = tok.as_signed_str().unwrap();
            let altitude = parse_altitude(t);
            let ghost p2 = lexer.end();
            proof {
                lexer.lemma_nonneg();
            }
            let next = match next_token(lexer, EXPECT_CRS_OR_SOLIDUS) {
                Ok(t) => t,
                Err(e) => return Err(e),
            };
            proof {
                lemma_lex_ascii(s, p2);
            }
            match next {
                Token::CrsId(_) => {
                    let crs = crs_at(lexer, input);
                    match expect_solidus(lexer) {
                        Ok(()) => Ok((Some(altitude), Some(crs))),
                        Err(e) => Err(e),
                    }
                },
                Token::Solidus => Ok((Some(altitude), None)),
                _ => Err(ParseError::Unexpected {
                    position: lexer.span().start,
                    expected: EXPECT_CRS_OR_SOLIDUS,
                }),
            }
        },
    }
}

/// The identifier of the `CRS` token that the lexer just read (the `CRS`
/// prefix stripped).
fn crs_at<'a>(lexer: &Lexer<'a>, input: &'a str) -> (r: CrsId<'a>)
    requires
        lexer.src() == input.spec_bytes(),
        lexer.start() + 3 <= lexer.end() <= lexer.src().len(),
        ascii_before(lexer.src(), lexer.end()),
    ensures
        r@ == crs_spec(lexer.src(), lexer.start(), lexer.end()),
{
    let span = lexer.span();
    proof {
        lemma_ascii_prefix(input@, lexer.end());
    }
    let id = input.substring_char(span.start + 3, span.end);
    assert(id@ =~= crs_spec(lexer.src(), lexer.start(), lexer.end()));
    CrsId::new(id)
}

fn parse_altitude(s: &[u8]) -> (r: Altitude)
    requires
        exists|n: int| signed_text(s@, n),
    ensures
        r@ == altitude_spec(s@),
{
    let ghost n = choose|n: int| signed_text(s@, n);
    proof {
        lemma_signed_decimal(s@, n, 1);
    }
    let sign = Sign::from_byte(s[0]);
    let value = Decimal::from_number_bytes(slice_subrange(s, 1, s.len()));
    assert(s@.subrange(1, s@.len() as int) =~= s@.skip(1));
    Altitude::new(sign, value)
}

fn expect_solidus<'a>(lexer: &mut Lexer<'a>) -> (r: Result<(), ParseError>)
    ensures
        final(lexer).src() == old(lexer).src(),
        match solidus_spec(old(lexer).src(), old(lexer).end()) {
            Ok(e) => r is Ok && final(lexer).end() == e,
            Err(err) => r matches Err(x) && x@ == err,
        },
{
    match next_token(lexer, EXPECT_SOLIDUS) {
        Ok(Token::Solidus) => Ok(()),
        Ok(_) => Err(ParseError::Unexpected { position: lexer.span().start, expected: EXPECT_SOLIDUS }),
        Err(e) => Err(e),
    }
}

} // verus!
