//! A coordinate is read from one text only, so a text in normal form, read
//! and written again, is the same text.
use vstd::prelude::*;
use vstd::utf8::encode_utf8;

use crate::decimal::decimal_of;
use crate::digits::{all_digits, is_digit, lemma_digits_eq};
use crate::error::{Component, ErrorV};
use crate::parser::{
    altitude_spec, coordinate_spec, crs_spec, deg_min_spec, deg_spec, dms_spec, fraction_of,
    latitude_spec, lemma_lex_signed, lemma_signed_decimal, longitude_spec, parse_spec, signed_text,
    solidus_spec, tail_spec,
};
use crate::roundtrip::{law_roundtrip, normal_coordinate};
use crate::text::{ascii_chars, lemma_ascii_chars_bytes};
use crate::token::{is_alnum, is_signed_kind, lemma_alnum_end, lemma_lex_bounds, lex, Lexed};
use crate::types::{coordinate_text, AltitudeV, AngleV};

verus! {

/// A signed number text is its sign byte, its integer digits and its fraction.
proof fn lemma_signed_eq(t1: Seq<u8>, t2: Seq<u8>, n: int)
    requires
        signed_text(t1, n),
        signed_text(t2, n),
        t1[0] == t2[0],
        t1.subrange(1, 1 + n) == t2.subrange(1, 1 + n),
        fraction_of(t1, n) == fraction_of(t2, n),
    ensures
        t1 == t2,
{
    if t1.len() > 1 + n {
        assert(fraction_of(t1, n).len() > 0);
    }
    if t2.len() > 1 + n {
        assert(fraction_of(t2, n).len() > 0);
    }
    assert(t1.len() == t2.len());
    assert forall|j: int| 0 <= j < t1.len() implies #[trigger] t1[j] == t2[j] by {
        if 1 <= j < 1 + n {
            assert(t1[j] == t1.subrange(1, 1 + n)[j - 1]);
            assert(t2[j] == t2.subrange(1, 1 + n)[j - 1]);
        } else if j >= 2 + n {
            assert(t1[j] == fraction_of(t1, n)[j - 2 - n]);
            assert(t2[j] == fraction_of(t2, n)[j - 2 - n]);
        }
    }
    assert(t1 =~= t2);
}

/// The digits of `t` from `i` to `j`.
proof fn lemma_digit_run(t: Seq<u8>, n: int, i: int, j: int)
    requires
        signed_text(t, n),
        1 <= i <= j <= 1 + n,
    ensures
        all_digits(t.subrange(i, j)),
{
    assert forall|k: int| 0 <= k < j - i implies is_digit(#[trigger] t.subrange(i, j)[k]) by {
        assert(t.subrange(i, j)[k] == t[i + k]);
    }
}

/// Two signed texts that read as one angle are the same text.
proof fn lemma_angle_text_eq(
    t1: Seq<u8>,
    t2: Seq<u8>,
    n1: int,
    n2: int,
    w: int,
    limit: nat,
    component: Component,
    a: AngleV,
)
    requires
        signed_text(t1, n1),
        signed_text(t2, n2),
        w >= 1,
        (n1 == w && deg_spec(t1, limit, component) == Ok::<AngleV, ErrorV>(a)) || (n1 == w + 2
            && deg_min_spec(t1, w, limit, component) == Ok::<AngleV, ErrorV>(a)) || (n1 == w + 4
            && dms_spec(t1, w, limit, component) == Ok::<AngleV, ErrorV>(a)),
        (n2 == w && deg_spec(t2, limit, component) == Ok::<AngleV, ErrorV>(a)) || (n2 == w + 2
            && deg_min_spec(t2, w, limit, component) == Ok::<AngleV, ErrorV>(a)) || (n2 == w + 4
            && dms_spec(t2, w, limit, component) == Ok::<AngleV, ErrorV>(a)),
    ensures
        t1 == t2,
{
    assert(t1[0] == 43 || t1[0] == 45);
    assert(t2[0] == 43 || t2[0] == 45);
    match a {
        AngleV::Deg { .. } => {
            assert(n1 == w && n2 == w);
            lemma_signed_decimal(t1, w, 1);
            lemma_signed_decimal(t2, w, 1);
        },
        AngleV::DegMin { .. } => {
            let n = w + 2;
            assert(n1 == n && n2 == n);
            lemma_signed_decimal(t1, n, 1 + w);
            lemma_signed_decimal(t2, n, 1 + w);
            lemma_digit_run(t1, n, 1, 1 + w);
            lemma_digit_run(t2, n, 1, 1 + w);
            lemma_digits_eq(t1.subrange(1, 1 + w), t2.subrange(1, 1 + w));
            assert forall|j: int| 0 <= j < n implies #[trigger] t1.subrange(1, 1 + n)[j]
                == t2.subrange(1, 1 + n)[j] by {
                if j < w {
                    assert(t1.subrange(1, 1 + n)[j] == t1.subrange(1, 1 + w)[j]);
                    assert(t2.subrange(1, 1 + n)[j] == t2.subrange(1, 1 + w)[j]);
                } else {
                    assert(t1.subrange(1, 1 + n)[j] == t1.subrange(1 + w, 1 + n)[j - w]);
                    assert(t2.subrange(1, 1 + n)[j] == t2.subrange(1 + w, 1 + n)[j - w]);
                }
            }
            assert(t1.subrange(1, 1 + n) =~= t2.subrange(1, 1 + n));
        },
        AngleV::Dms { .. } => {
            let n = w + 4;
            assert(n1 == n && n2 == n);
            lemma_signed_decimal(t1, n, 3 + w);
            lemma_signed_decimal(t2, n, 3 + w);
            lemma_digit_run(t1, n, 1, 1 + w);
            lemma_digit_run(t2, n, 1, 1 + w);
            lemma_digit_run(t1, n, 1 + w, 3 + w);
            lemma_digit_run(t2, n, 1 + w, 3 + w);
            lemma_digits_eq(t1.subrange(1, 1 + w), t2.subrange(1, 1 + w));
            lemma_digits_eq(t1.subrange(1 + w, 3 + w), t2.subrange(1 + w, 3 + w));
            assert forall|j: int| 0 <= j < n implies #[trigger] t1.subrange(1, 1 + n)[j]
                == t2.subrange(1, 1 + n)[j] by {
                if j < w {
                    assert(t1.subrange(1, 1 + n)[j] == t1.subrange(1, 1 + w)[j]);
                    assert(t2.subrange(1, 1 + n)[j] == t2.subrange(1, 1 + w)[j]);
                } else if j < w + 2 {
                    assert(t1.subrange(1, 1 + n)[j] == t1.subrange(1 + w, 3 + w)[j - w]);
                    assert(t2.subrange(1, 1 + n)[j] == t2.subrange(1 + w, 3 + w)[j - w]);
                } else {
                    assert(t1.subrange(1, 1 + n)[j] == t1.subrange(3 + w, 1 + n)[j - w - 2]);
                    assert(t2.subrange(1, 1 + n)[j] == t2.subrange(3 + w, 1 + n)[j - w - 2]);
                }
            }
            assert(t1.subrange(1, 1 + n) =~= t2.subrange(1, 1 + n));
        },
    }
    let n = n1;
    lemma_signed_eq(t1, t2, n);
}

/// Equal pieces `[a, m)` and `[m, b)` make equal pieces `[a, b)`.
proof fn lemma_join(s1: Seq<u8>, s2: Seq<u8>, a: int, m: int, b: int)
    requires
        0 <= a <= m <= b,
        b <= s1.len(),
        b <= s2.len(),
        s1.subrange(a, m) == s2.subrange(a, m),
        s1.subrange(m, b) == s2.subrange(m, b),
    ensures
        s1.subrange(a, b) == s2.subrange(a, b),
{
    assert forall|j: int| 0 <= j < b - a implies #[trigger] s1.subrange(a, b)[j] == s2.subrange(
        a,
        b,
    )[j] by {
        if j < m - a {
            assert(s1.subrange(a, b)[j] == s1.subrange(a, m)[j]);
            assert(s2.subrange(a, b)[j] == s2.subrange(a, m)[j]);
        } else {
            assert(s1.subrange(a, b)[j] == s1.subrange(m, b)[j - (m - a)]);
            assert(s2.subrange(a, b)[j] == s2.subrange(m, b)[j - (m - a)]);
        }
    }
    assert(s1.subrange(a, b) =~= s2.subrange(a, b));
}

/// Two inputs whose latitudes at `pos` read as one angle hold the same bytes
/// there.
proof fn lemma_latitude_eq(s1: Seq<u8>, s2: Seq<u8>, a: AngleV, e1: int, e2: int)
    requires
        latitude_spec(s1, 0) == Ok::<(AngleV, int), ErrorV>((a, e1)),
        latitude_spec(s2, 0) == Ok::<(AngleV, int), ErrorV>((a, e2)),
    ensures
        e1 == e2,
        0 < e1 <= s1.len(),
        e2 <= s2.len(),
        s1.subrange(0, e1) == s2.subrange(0, e2),
{
    lemma_lex_signed(s1, 0);
    lemma_lex_signed(s2, 0);
    let t1 = s1.subrange(0, e1);
    let t2 = s2.subrange(0, e2);
    lemma_angle_text_eq(
        t1,
        t2,
        crate::digits::digits_end(s1, 1) - 1,
        crate::digits::digits_end(s2, 1) - 1,
        2,
        90,
        Component::Latitude,
        a,
    );
}

/// Two inputs whose longitudes at `pos` read as one angle hold the same
/// bytes there.
proof fn lemma_longitude_eq(s1: Seq<u8>, s2: Seq<u8>, pos: int, a: AngleV, e1: int, e2: int)
    requires
        0 <= pos,
        longitude_spec(s1, pos) == Ok::<(AngleV, int), ErrorV>((a, e1)),
        longitude_spec(s2, pos) == Ok::<(AngleV, int), ErrorV>((a, e2)),
    ensures
        e1 == e2,
        pos < e1 <= s1.len(),
        e2 <= s2.len(),
        s1.subrange(pos, e1) == s2.subrange(pos, e2),
{
    lemma_lex_signed(s1, pos);
    lemma_lex_signed(s2, pos);
    let t1 = s1.subrange(pos, e1);
    let t2 = s2.subrange(pos, e2);
    lemma_angle_text_eq(
        t1,
        t2,
        crate::digits::digits_end(s1, pos + 1) - (pos + 1),
        crate::digits::digits_end(s2, pos + 1) - (pos + 1),
        3,
        180,
        Component::Longitude,
        a,
    );
}

/// Two altitude tokens at `pos` that read as one altitude are the same bytes.
proof fn lemma_altitude_eq(s1: Seq<u8>, s2: Seq<u8>, pos: int)
    requires
        0 <= pos,
        lex(s1, pos) is Token,
        lex(s2, pos) is Token,
        is_signed_kind(lex(s1, pos)->kind),
        is_signed_kind(lex(s2, pos)->kind),
        altitude_spec(s1.subrange(pos, lex(s1, pos)->end)) == altitude_spec(
            s2.subrange(pos, lex(s2, pos)->end),
        ),
    ensures
        lex(s1, pos)->end == lex(s2, pos)->end,
        s1.subrange(pos, lex(s1, pos)->end) == s2.subrange(pos, lex(s2, pos)->end),
{
    lemma_lex_signed(s1, pos);
    lemma_lex_signed(s2, pos);
    let t1 = s1.subrange(pos, lex(s1, pos)->end);
    let t2 = s2.subrange(pos, lex(s2, pos)->end);
    let n1 = crate::digits::digits_end(s1, pos + 1) - (pos + 1);
    let n2 = crate::digits::digits_end(s2, pos + 1) - (pos + 1);
    lemma_signed_decimal(t1, n1, 1);
    lemma_signed_decimal(t2, n2, 1);
    assert(decimal_of(t1.skip(1)).integer.len() == n1);
    assert(n1 == n2);
    assert(t1[0] == 43 || t1[0] == 45);
    assert(t2[0] == 43 || t2[0] == 45);
    lemma_signed_eq(t1, t2, n1);
}

/// Two `CRS` tokens at `pos` with one identifier are the same bytes.
proof fn lemma_crs_eq(s1: Seq<u8>, s2: Seq<u8>, pos: int)
    requires
        0 <= pos,
        lex(s1, pos) matches Lexed::Token { kind, .. } && kind is CrsId,
        lex(s2, pos) matches Lexed::Token { kind, .. } && kind is CrsId,
        crs_spec(s1, pos, lex(s1, pos)->end) == crs_spec(s2, pos, lex(s2, pos)->end),
    ensures
        lex(s1, pos)->end == lex(s2, pos)->end,
        pos < lex(s1, pos)->end <= s1.len(),
        lex(s2, pos)->end <= s2.len(),
        s1.subrange(pos, lex(s1, pos)->end) == s2.subrange(pos, lex(s2, pos)->end),
{
    let e1 = lex(s1, pos)->end;
    let e2 = lex(s2, pos)->end;
    lemma_alnum_end(s1, pos + 3);
    lemma_alnum_end(s2, pos + 3);
    let i1 = s1.subrange(pos + 3, e1);
    let i2 = s2.subrange(pos + 3, e2);
    assert forall|j: int| 0 <= j < i1.len() implies #[trigger] i1[j] < 128 by {
        assert(is_alnum(s1[pos + 3 + j]));
    }
    assert forall|j: int| 0 <= j < i2.len() implies #[trigger] i2[j] < 128 by {
        assert(is_alnum(s2[pos + 3 + j]));
    }
    lemma_ascii_chars_bytes(i1);
    lemma_ascii_chars_bytes(i2);
    assert(ascii_chars(i1) == ascii_chars(i2));
    assert(i1 == i2);
    assert forall|j: int| 0 <= j < e1 - pos implies #[trigger] s1.subrange(pos, e1)[j]
        == s2.subrange(pos, e2)[j] by {
        if j >= 3 {
            assert(s1.subrange(pos, e1)[j] == i1[j - 3]);
            assert(s2.subrange(pos, e2)[j] == i2[j - 3]);
        }
    }
    assert(s1.subrange(pos, e1) =~= s2.subrange(pos, e2));
}

/// Two solidus tokens at `pos`.
proof fn lemma_solidus_eq(s1: Seq<u8>, s2: Seq<u8>, pos: int, e1: int, e2: int)
    requires
        0 <= pos,
        solidus_spec(s1, pos) == Ok::<int, ErrorV>(e1),
        solidus_spec(s2, pos) == Ok::<int, ErrorV>(e2),
    ensures
        e1 == e2 == pos + 1,
        e1 <= s1.len(),
        e2 <= s2.len(),
        s1.subrange(pos, e1) == s2.subrange(pos, e2),
{
    assert(s1.subrange(pos, e1) =~= seq![47u8]);
    assert(s2.subrange(pos, e2) =~= seq![47u8]);
}

/// Two inputs whose tails at `pos` read the same hold the same bytes there.
#[verifier::spinoff_prover]
#[verifier::rlimit(40)]
proof fn lemma_tail_eq(
    s1: Seq<u8>,
    s2: Seq<u8>,
    pos: int,
    alt: Option<AltitudeV>,
    crs: Option<Seq<char>>,
    e1: int,
    e2: int,
)
    requires
        0 <= pos,
        tail_spec(s1, pos) == Ok::<_, ErrorV>((alt, crs, e1)),
        tail_spec(s2, pos) == Ok::<_, ErrorV>((alt, crs, e2)),
    ensures
        e1 == e2,
        pos < e1 <= s1.len(),
        e2 <= s2.len(),
        s1.subrange(pos, e1) == s2.subrange(pos, e2),
{
    lemma_lex_bounds(s1, pos);
    lemma_lex_bounds(s2, pos);
    let k1 = lex(s1, pos)->kind;
    let k2 = lex(s2, pos)->kind;
    let m = lex(s1, pos)->end;
    if alt is None && crs is None {
        lemma_solidus_eq(s1, s2, pos, e1, e2);
    } else if alt is None {
        assert(k1 is CrsId && k2 is CrsId);
        lemma_crs_eq(s1, s2, pos);
        lemma_solidus_eq(s1, s2, m, e1, e2);
        lemma_join(s1, s2, pos, m, e1);
    } else {
        assert(is_signed_kind(k1) && is_signed_kind(k2));
        lemma_altitude_eq(s1, s2, pos);
        lemma_lex_bounds(s1, m);
        lemma_lex_bounds(s2, m);
        if crs is None {
            lemma_solidus_eq(s1, s2, m, e1, e2);
            lemma_join(s1, s2, pos, m, e1);
        } else {
            lemma_crs_eq(s1, s2, m);
            let m2 = lex(s1, m)->end;
            lemma_solidus_eq(s1, s2, m2, e1, e2);
            lemma_join(s1, s2, m, m2, e1);
            lemma_join(s1, s2, pos, m, e1);
        }
    }
}

/// One text per coordinate: two inputs that read as the same coordinate are
/// the same bytes.
pub proof fn law_one_text_per_coordinate(s1: Seq<u8>, s2: Seq<u8>)
    requires
        parse_spec(s1) is Ok,
        parse_spec(s1) == parse_spec(s2),
    ensures
        s1 == s2,
{
    if let Ok((c, _)) = coordinate_spec(s1) {
        if let Ok((_, p1)) = latitude_spec(s1, 0) {
            if let Ok((_, q1)) = latitude_spec(s2, 0) {
                lemma_latitude_eq(s1, s2, c.latitude, p1, q1);
                if let Ok((_, p2)) = longitude_spec(s1, p1) {
                    if let Ok((_, q2)) = longitude_spec(s2, p1) {
                        lemma_longitude_eq(s1, s2, p1, c.longitude, p2, q2);
                        if let Ok((alt, crs, e1)) = tail_spec(s1, p2) {
                            if let Ok((_, _, e2)) = tail_spec(s2, p2) {
                                lemma_tail_eq(s1, s2, p2, alt, crs, e1, e2);
                                lemma_join(s1, s2, 0, p1, p2);
                                lemma_join(s1, s2, 0, p2, e1);
                                assert(s1 =~= s1.subrange(0, e1));
                                assert(s2 =~= s2.subrange(0, e2));
                            }
                        }
                    }
                }
            }
        }
    }
}

/// Round trip: a text that reads as a coordinate in normal form (such as
/// `+40.7128-074.0060/`, `+404243-0740002/` or
/// `+27.5916+086.5640+8848CRSepsg4326/`) is written back, byte for byte, by
/// `to_string`.
pub proof fn law_read_then_write(s: Seq<u8>)
    requires
        parse_spec(s) matches Ok(c) && normal_coordinate(c),
    ensures
        parse_spec(s) matches Ok(c) && encode_utf8(coordinate_text(c)) == s,
{
    if let Ok(c) = parse_spec(s) {
        law_roundtrip(c);
        law_one_text_per_coordinate(s, encode_utf8(coordinate_text(c)));
    }
}

} // verus!
