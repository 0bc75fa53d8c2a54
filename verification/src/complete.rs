//! Every input of the grammar whose latitude and longitude are in range
//! parses, in every notation and with any number of fraction digits.
use vstd::prelude::*;

use crate::decimal::decimal_of;
use crate::digits::{digits_value, lemma_pow10_positive};
use crate::error::{Component, ErrorV};
use crate::parser::{
    deg_min_spec, deg_spec, dms_spec, latitude_spec, longitude_spec, parse_spec,
    signed_text, tail_spec,
};
use crate::ranges::angle_in_range;
use crate::roundtrip::{ends_number, lemma_lex_crs_at, lemma_lex_signed_at};
use crate::shapes::crs_shape;
use crate::token::{is_alnum, lex, Lexed};
use crate::text::ascii_chars;
use crate::types::{AltitudeV, AngleV, Sign};

verus! {

/// The angle that a signed number text with `n` integer digits writes, for an
/// angle with `w` degree digits: decimal degrees (`n == w`), degrees and
/// decimal minutes (`n == w + 2`), or degrees, minutes and decimal seconds.
pub open spec fn text_angle(t: Seq<u8>, n: int, w: int) -> AngleV {
    let sign = Sign::of_byte(t[0]);
    if n == w {
        AngleV::Deg { sign, degrees: decimal_of(t.skip(1)) }
    } else if n == w + 2 {
        AngleV::DegMin {
            sign,
            degrees: digits_value(t.subrange(1, 1 + w)),
            minutes: decimal_of(t.skip(1 + w)),
        }
    } else {
        AngleV::Dms {
            sign,
            degrees: digits_value(t.subrange(1, 1 + w)),
            minutes: digits_value(t.subrange(1 + w, 3 + w)),
            seconds: decimal_of(t.skip(3 + w)),
        }
    }
}

/// An angle text in range reads as the angle it writes.
proof fn lemma_in_range_reads(t: Seq<u8>, n: int, w: int, limit: nat, component: Component)
    requires
        signed_text(t, n),
        w >= 1,
        n == w || n == w + 2 || n == w + 4,
        angle_in_range(text_angle(t, n, w), limit),
    ensures
        n == w ==> deg_spec(t, limit, component) == Ok::<AngleV, ErrorV>(text_angle(t, n, w)),
        n == w + 2 ==> deg_min_spec(t, w, limit, component) == Ok::<AngleV, ErrorV>(
            text_angle(t, n, w),
        ),
        n == w + 4 ==> dms_spec(t, w, limit, component) == Ok::<AngleV, ErrorV>(
            text_angle(t, n, w),
        ),
{
    if n == w + 2 {
        let d = digits_value(t.subrange(1, 1 + w));
        let m = decimal_of(t.skip(1 + w));
        let q = m.denominator();
        let x = m.numerator();
        lemma_pow10_positive(m.fraction.len());
        assert(d <= limit && (d == limit ==> x == 0)) by (nonlinear_arith)
            requires
                d * 60 * q + x <= limit * (60 * q),
                x < 60 * q,
                q >= 1,
        ;
    } else if n == w + 4 {
        let d = digits_value(t.subrange(1, 1 + w));
        let mm = digits_value(t.subrange(1 + w, 3 + w));
        let sec = decimal_of(t.skip(3 + w));
        let q = sec.denominator();
        let x = sec.numerator();
        lemma_pow10_positive(sec.fraction.len());
        assert(d <= limit && (d == limit ==> mm == 0 && x == 0)) by (nonlinear_arith)
            requires
                d * 3600 * q + mm * 60 * q + x <= limit * (3600 * q),
                q >= 1,
        ;
    }
}

/// An angle text at `pos`, followed by a byte that ends a number, is one
/// token.
proof fn lemma_angle_at(s: Seq<u8>, pos: int, t: Seq<u8>, n: int)
    requires
        0 <= pos,
        signed_text(t, n),
        pos + t.len() < s.len(),
        s.subrange(pos, pos + t.len()) == t,
        ends_number(s[pos + t.len()]),
    ensures
        lex(s, pos) == (Lexed::Token {
            kind: crate::token::signed_kind(n),
            end: pos + t.len(),
        }),
{
    lemma_lex_signed_at(s, pos, t, n);
}

/// Completeness: an input of the grammar, `l + g + a + k + "/"`, whose
/// latitude `l` (with 2, 4 or 6 integer digits) and longitude `g` (with 3, 5
/// or 7) are in range, parses, whatever the number of fraction digits; the
/// coordinate holds the angles, the altitude and the identifier that the
/// texts write. (`a` is empty or a signed number, `k` empty or `CRS` and
/// letters or digits.)
#[verifier::spinoff_prover]
#[verifier::rlimit(100)]
pub proof fn law_in_range_parses(
    l: Seq<u8>,
    nl: int,
    g: Seq<u8>,
    ng: int,
    a: Seq<u8>,
    k: Seq<u8>,
)
    requires
        nl == 2 || nl == 4 || nl == 6,
        signed_text(l, nl),
        ng == 3 || ng == 5 || ng == 7,
        signed_text(g, ng),
        a.len() == 0 || exists|n: int| signed_text(a, n),
        crs_shape(k),
        angle_in_range(text_angle(l, nl, 2), 90),
        angle_in_range(text_angle(g, ng, 3), 180),
    ensures
        parse_spec(l + g + a + k + seq![47u8]) matches Ok(c) && c.latitude == text_angle(l, nl, 2)
            && c.longitude == text_angle(g, ng, 3) && c.altitude == (if a.len() == 0 {
            None
        } else {
            Some(AltitudeV { sign: Sign::of_byte(a[0]), value: decimal_of(a.skip(1)) })
        }) && c.crs == (if k.len() == 0 {
            None
        } else {
            Some(ascii_chars(k.skip(3)))
        }),
{
    let s = l + g + a + k + seq![47u8];
    let p1 = l.len() as int;
    let p2 = p1 + g.len();
    let p3 = p2 + a.len();
    // Latitude.
    assert(s.subrange(0, p1) =~= l);
    assert(s[p1] == g[0]);
    lemma_angle_at(s, 0, l, nl);
    lemma_in_range_reads(l, nl, 2, 90, Component::Latitude);
    assert(latitude_spec(s, 0) == Ok::<(AngleV, int), ErrorV>((text_angle(l, nl, 2), p1)));
    // Longitude.
    assert(s.subrange(p1, p2) =~= g);
    let rest = a + k + seq![47u8];
    assert(s[p2] == rest[0]);
    if a.len() > 0 {
        let n = choose|n: int| signed_text(a, n);
        assert(rest[0] == a[0]);
    } else if k.len() > 0 {
        assert(rest[0] == k[0]);
    } else {
        assert(rest[0] == 47);
    }
    lemma_angle_at(s, p1, g, ng);
    lemma_in_range_reads(g, ng, 3, 180, Component::Longitude);
    assert(longitude_spec(s, p1) == Ok::<(AngleV, int), ErrorV>((text_angle(g, ng, 3), p2)));
    // Tail.
    let tail = k + seq![47u8];
    if a.len() > 0 {
        let n = choose|n: int| signed_text(a, n);
        assert(s.subrange(p2, p3) =~= a);
        assert(s[p3] == tail[0]);
        if k.len() > 0 {
            assert(tail[0] == k[0]);
        } else {
            assert(tail[0] == 47);
        }
        lemma_lex_signed_at(s, p2, a, n);
        assert(crate::parser::altitude_spec(s.subrange(p2, p3)) == crate::parser::altitude_spec(a));
    }
    if k.len() > 0 {
        let id = k.skip(3);
        assert forall|j: int| 0 <= j < id.len() implies is_alnum(#[trigger] id[j]) by {
            assert(id[j] == k[j + 3]);
        }
        assert(s.subrange(p3, p3 + 3 + id.len()) =~= seq![67u8, 82u8, 83u8] + id) by {
            assert forall|j: int| 0 <= j < 3 + id.len() implies s.subrange(p3, p3 + 3 + id.len())[j]
                == (seq![67u8, 82u8, 83u8] + id)[j] by {
                assert(s[p3 + j] == k[j]);
            }
        }
        assert(s[p3 + k.len()] == 47);
        lemma_lex_crs_at(s, p3, id);
        assert(s.subrange(p3 + 3, p3 + k.len()) =~= id) by {
            assert forall|j: int| 0 <= j < id.len() implies s.subrange(p3 + 3, p3 + k.len())[j]
                == id[j] by {
                assert(s[p3 + 3 + j] == k[3 + j]);
            }
        }
    } else {
        assert(s[p3] == 47);
    }
    assert(tail_spec(s, p2) is Ok);
}

} // verus!
