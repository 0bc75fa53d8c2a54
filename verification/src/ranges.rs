//! What every successful parse keeps: the ranges of latitude and longitude.
use vstd::prelude::*;

use crate::error::{Component, ErrorV};
use crate::parser::{deg_min_spec, deg_spec, dms_spec, parse_spec};
use crate::token::{lex, Lexed};
use crate::types::AngleV;

verus! {

/// The magnitude of an angle in decimal degrees is
/// `magnitude_num(a) / magnitude_den(a)`: degrees + minutes / 60 + seconds / 3600.
pub open spec fn magnitude_num(a: AngleV) -> nat {
    match a {
        AngleV::Deg { degrees, .. } => degrees.numerator(),
        AngleV::DegMin { degrees, minutes, .. } => degrees * 60 * minutes.denominator()
            + minutes.numerator(),
        AngleV::Dms { degrees, minutes, seconds, .. } => degrees * 3600 * seconds.denominator()
            + minutes * 60 * seconds.denominator() + seconds.numerator(),
    }
}

pub open spec fn magnitude_den(a: AngleV) -> nat {
    match a {
        AngleV::Deg { degrees, .. } => degrees.denominator(),
        AngleV::DegMin { minutes, .. } => 60 * minutes.denominator(),
        AngleV::Dms { seconds, .. } => 3600 * seconds.denominator(),
    }
}

/// Minutes and seconds below 60, and a magnitude of at most `limit` degrees.
pub open spec fn angle_in_range(a: AngleV, limit: nat) -> bool {
    &&& magnitude_num(a) <= limit * magnitude_den(a)
    &&& match a {
        AngleV::Deg { .. } => true,
        AngleV::DegMin { minutes, .. } => minutes.numerator() < 60 * minutes.denominator(),
        AngleV::Dms { minutes, seconds, .. } => minutes < 60 && seconds.numerator() < 60
            * seconds.denominator(),
    }
}

/// Each notation of an angle that reads successfully is in range.
proof fn lemma_angle_spec_in_range(t: Seq<u8>, w: int, limit: nat, component: Component, a: AngleV)
    requires
        deg_spec(t, limit, component) == Ok::<AngleV, ErrorV>(a) || deg_min_spec(
            t,
            w,
            limit,
            component,
        ) == Ok::<AngleV, ErrorV>(a) || dms_spec(t, w, limit, component) == Ok::<AngleV, ErrorV>(a),
    ensures
        angle_in_range(a, limit),
{
    match a {
        AngleV::Deg { degrees, .. } => {},
        AngleV::DegMin { degrees, minutes, .. } => {
            let d = minutes.denominator();
            let m = minutes.numerator();
            assert(degrees * 60 * d + m <= limit * (60 * d)) by (nonlinear_arith)
                requires
                    degrees <= limit,
                    m < 60 * d,
                    degrees == limit ==> m == 0,
            ;
        },
        AngleV::Dms { degrees, minutes, seconds, .. } => {
            let d = seconds.denominator();
            let x = seconds.numerator();
            assert(degrees * 3600 * d + minutes * 60 * d + x <= limit * (3600 * d))
                by (nonlinear_arith)
                requires
                    degrees <= limit,
                    minutes < 60,
                    x < 60 * d,
                    degrees == limit ==> minutes == 0 && x == 0,
            ;
        },
    }
}

/// Range: every coordinate that parses has a latitude of at most 90 degrees
/// and a longitude of at most 180 degrees either way, with minutes and
/// seconds below 60.
pub proof fn law_parsed_in_range(s: Seq<u8>)
    ensures
        parse_spec(s) matches Ok(c) ==> angle_in_range(c.latitude, 90) && angle_in_range(
            c.longitude,
            180,
        ),
{
    if let Ok(c) = parse_spec(s) {
        if let Lexed::Token { kind, end } = lex(s, 0) {
            lemma_angle_spec_in_range(s.subrange(0, end), 2, 90, Component::Latitude, c.latitude);
            let p1 = end;
            if let Lexed::Token { kind: k2, end: e2 } = lex(s, p1) {
                lemma_angle_spec_in_range(
                    s.subrange(p1, e2),
                    3,
                    180,
                    Component::Longitude,
                    c.longitude,
                );
            }
        }
    }
}

} // verus!
