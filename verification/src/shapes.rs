//! The written forms of a coordinate, as text: a text in these forms that
//! parses is written back byte for byte.
use vstd::prelude::*;
use vstd::utf8::encode_utf8;

use crate::decimal::lemma_decimal_of_wf;
use crate::digits::all_zero_digits;
use crate::error::{Component, ErrorV};
use crate::parser::{
    altitude_spec, at_end, crs_spec, deg_min_spec, deg_spec, dms_spec, fraction_of, latitude_spec,
    lemma_signed_decimal, longitude_spec, parse_spec, signed_text, tail_spec,
};
use crate::readback::law_read_then_write;
use crate::roundtrip::{
    ends_number, is_alnum_char, lemma_lex_crs_at, lemma_lex_signed_at, normal_altitude,
    normal_angle, normal_coordinate, normal_crs,
};
use crate::text::ascii_chars;
use crate::token::{is_alnum, is_sign, lex, Lexed};
use crate::types::{coordinate_text, AngleV};

verus! {

/// An angle written with `w` degree digits, in one of the forms that
/// `to_string` writes: `±D.dddd` (`w` digits `D`, four fraction digits),
/// `±DMM`, `±DMM.dddd`, `±DMMSS` or `±DMMSS.dddddd`, where the fraction digits
/// of the minutes or seconds are not all `0`.
pub open spec fn angle_shape(t: Seq<u8>, w: int) -> bool {
    ||| signed_text(t, w) && t.len() == w + 6
    ||| signed_text(t, w + 2) && (t.len() == w + 3 || (t.len() == w + 8 && !all_zero_digits(
        t.subrange(w + 4, w + 8),
    )))
    ||| signed_text(t, w + 4) && (t.len() == w + 5 || (t.len() == w + 12 && !all_zero_digits(
        t.subrange(w + 6, w + 12),
    )))
}

/// An altitude as `to_string` writes it: nothing, or a sign, digits without a
/// leading zero (a lone `0` allowed) and optionally `.` and digits that do not
/// end in `0`.
pub open spec fn altitude_shape(t: Seq<u8>) -> bool {
    t.len() == 0 || exists|n: int|
        #![trigger signed_text(t, n)]
        signed_text(t, n) && (n == 1 || t[1] != 48) && (t.len() == 1 + n || t.last() != 48)
}

/// A CRS identifier as written: nothing, or `CRS` and one or more ASCII
/// letters and digits.
pub open spec fn crs_shape(t: Seq<u8>) -> bool {
    t.len() == 0 || (t.len() >= 4 && t[0] == 67 && t[1] == 82 && t[2] == 83 && forall|i: int|
        3 <= i < t.len() ==> is_alnum(#[trigger] t[i]))
}

/// The number of integer digits of an angle text of the written forms.
pub open spec fn shape_digits(t: Seq<u8>, w: int) -> int {
    if t.len() == w + 6 {
        w
    } else if t.len() == w + 3 || t.len() == w + 8 {
        w + 2
    } else {
        w + 4
    }
}

/// What an angle text with `w` degree digits reads as.
pub open spec fn angle_read(t: Seq<u8>, w: int, limit: nat, component: Component) -> Result<
    AngleV,
    ErrorV,
> {
    let n = shape_digits(t, w);
    if n == w {
        deg_spec(t, limit, component)
    } else if n == w + 2 {
        deg_min_spec(t, w, limit, component)
    } else {
        dms_spec(t, w, limit, component)
    }
}

/// An angle text of the written forms that reads successfully reads as an
/// angle in normal form.
proof fn lemma_angle_shape_normal(t: Seq<u8>, w: int, limit: nat, component: Component)
    requires
        angle_shape(t, w),
        w >= 1,
        angle_read(t, w, limit, component) is Ok,
    ensures
        signed_text(t, shape_digits(t, w)),
        normal_angle(angle_read(t, w, limit, component)->Ok_0, w as nat, limit),
{
    let n = shape_digits(t, w);
    if n == w {
        lemma_signed_decimal(t, w, 1);
        lemma_decimal_of_wf(t.skip(1));
    } else if n == w + 2 {
        lemma_signed_decimal(t, n, 1 + w);
        lemma_decimal_of_wf(t.skip(1 + w));
        if t.len() == w + 8 {
            assert(fraction_of(t, n) =~= t.subrange(w + 4, w + 8));
        }
    } else {
        lemma_signed_decimal(t, n, 3 + w);
        lemma_decimal_of_wf(t.skip(3 + w));
        if t.len() == w + 12 {
            assert(fraction_of(t, n) =~= t.subrange(w + 6, w + 12));
        }
    }
}

/// The first byte of a non-empty piece ends a number before it.
proof fn lemma_piece_start(a: Seq<u8>, k: Seq<u8>)
    requires
        altitude_shape(a),
        crs_shape(k),
    ensures
        ends_number((a + k + seq![47u8])[0]),
        a.len() > 0 ==> is_sign(a[0]),
        ends_number((k + seq![47u8])[0]),
{
    if a.len() > 0 {
        let n = choose|n: int| #![trigger signed_text(a, n)] signed_text(a, n) && (n == 1 || a[1] != 48) && (a.len() == 1 + n || a.last() != 48);
        assert((a + k + seq![47u8])[0] == a[0]);
    } else if k.len() > 0 {
        assert((a + k + seq![47u8])[0] == k[0]);
    } else {
        assert((a + k + seq![47u8])[0] == 47);
    }
    if k.len() > 0 {
        assert((k + seq![47u8])[0] == k[0]);
    } else {
        assert((k + seq![47u8])[0] == 47);
    }
}

/// The CRS piece at `pos`, followed by the solidus.
proof fn lemma_crs_piece(s: Seq<u8>, pos: int, k: Seq<u8>)
    requires
        0 <= pos,
        crs_shape(k),
        k.len() > 0,
        pos + k.len() < s.len(),
        s.subrange(pos, pos + k.len()) == k,
        s[pos + k.len()] == 47,
    ensures
        lex(s, pos) == (Lexed::Token { kind: crate::token::TokenKind::CrsId, end: pos + k.len() }),
        crs_spec(s, pos, pos + k.len()) == ascii_chars(k.skip(3)),
        normal_crs(ascii_chars(k.skip(3))),
        s[pos + k.len()] == 47,
{
    let id = k.skip(3);
    assert forall|j: int| 0 <= j < id.len() implies is_alnum(#[trigger] id[j]) by {
        assert(id[j] == k[j + 3]);
    }
    assert(s.subrange(pos, pos + 3 + id.len()) =~= seq![67u8, 82u8, 83u8] + id) by {
        assert forall|j: int| 0 <= j < 3 + id.len() implies s.subrange(pos, pos + 3 + id.len())[j]
            == (seq![67u8, 82u8, 83u8] + id)[j] by {
            assert(s[pos + j] == s.subrange(pos, pos + k.len())[j]);
        }
    }
    lemma_lex_crs_at(s, pos, id);
    assert(s.subrange(pos + 3, pos + k.len()) =~= id) by {
        assert forall|j: int| 0 <= j < id.len() implies s.subrange(pos + 3, pos + k.len())[j]
            == id[j] by {
            assert(s[pos + 3 + j] == s.subrange(pos, pos + k.len())[3 + j]);
        }
    }
    let cs = ascii_chars(id);
    assert forall|i: int| 0 <= i < cs.len() implies is_alnum_char(#[trigger] cs[i]) by {
        assert(is_alnum(id[i]));
        assert(cs[i] == id[i] as char);
    }
}

/// A text of the written forms: the latitude `l`, the longitude `g`, an
/// optional altitude `a`, an optional CRS identifier `k`, then `/`. When it
/// parses, it parses as a coordinate in normal form, and `to_string` writes
/// it back byte for byte (as in `+40.7128-074.0060/`, `+404243-0740002/`,
/// `+27.5916+086.5640+8848CRSepsg4326/`).
#[verifier::spinoff_prover]
#[verifier::rlimit(60)]
pub proof fn law_written_forms_read_back(l: Seq<u8>, g: Seq<u8>, a: Seq<u8>, k: Seq<u8>)
    requires
        angle_shape(l, 2),
        angle_shape(g, 3),
        altitude_shape(a),
        crs_shape(k),
        parse_spec(l + g + a + k + seq![47u8]) is Ok,
    ensures
        parse_spec(l + g + a + k + seq![47u8]) matches Ok(c) && normal_coordinate(c)
            && encode_utf8(coordinate_text(c)) == l + g + a + k + seq![47u8],
{
    let s = l + g + a + k + seq![47u8];
    let p1 = l.len() as int;
    let p2 = p1 + g.len();
    let p3 = p2 + a.len();
    let nl = shape_digits(l, 2);
    let ng = shape_digits(g, 3);
    lemma_piece_start(a, k);
    // Latitude.
    lemma_angle_shape_normal_signed(l, 2);
    assert(s.subrange(0, p1) =~= l);
    assert(s[p1] == g[0]);
    lemma_lex_signed_at(s, 0, l, nl);
    assert(latitude_spec(s, 0) == at_end(angle_read(l, 2, 90, Component::Latitude), p1));
    lemma_angle_shape_normal(l, 2, 90, Component::Latitude);
    // Longitude.
    lemma_angle_shape_normal_signed(g, 3);
    assert(s.subrange(p1, p2) =~= g);
    assert(s[p2] == (a + k + seq![47u8])[0]);
    lemma_lex_signed_at(s, p1, g, ng);
    assert(longitude_spec(s, p1) == at_end(angle_read(g, 3, 180, Component::Longitude), p2));
    lemma_angle_shape_normal(g, 3, 180, Component::Longitude);
    // Tail.
    if a.len() > 0 {
        let n = choose|n: int| #![trigger signed_text(a, n)] signed_text(a, n) && (n == 1 || a[1] != 48) && (a.len() == 1 + n || a.last() != 48);
        assert(s.subrange(p2, p3) =~= a);
        assert(s[p3] == (k + seq![47u8])[0]);
        lemma_lex_signed_at(s, p2, a, n);
        lemma_signed_decimal(a, n, 1);
        lemma_decimal_of_wf(a.skip(1));
        assert(normal_altitude(altitude_spec(a)));
    }
    if k.len() > 0 {
        assert(s.subrange(p3, p3 + k.len()) =~= k);
        assert(s[p3 + k.len()] == 47);
        lemma_crs_piece(s, p3, k);
    } else {
        assert(s[p3] == 47);
    }
    assert(tail_spec(s, p2) is Ok);
    law_read_then_write(s);
}

/// An angle text of the written forms is a signed number text.
proof fn lemma_angle_shape_normal_signed(t: Seq<u8>, w: int)
    requires
        angle_shape(t, w),
        w >= 1,
    ensures
        signed_text(t, shape_digits(t, w)),
        t.len() >= 1 && is_sign(t[0]),
{
}

} // verus!
