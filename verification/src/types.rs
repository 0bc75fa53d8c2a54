//! The parsed coordinate: latitude, longitude, altitude and CRS identifier.
use vstd::prelude::*;

use crate::decimal::{Decimal, DecimalV};
use crate::text::{
    fixed_text, nat_text, part_text, plain_text, push_char, push_fixed, push_nat_padded, push_part,
    push_plain, push_str, zero_pad,
};

verus! {

/// Sign of a coordinate component.
#[derive(Debug, Clone, Copy, PartialEq, Eq, Hash, Structural)]
pub enum Sign {
    /// Positive (`+`): North for latitude, East for longitude.
    Pos,
    /// Negative (`-`): South for latitude, West for longitude.
    Neg,
}

impl Sign {
    /// The sign written by the first byte of a signed numeric string:
    /// `-` is negative, anything else positive.
    pub open spec fn of_byte(b: u8) -> Sign {
        if b == 45 {
            Sign::Neg
        } else {
            Sign::Pos
        }
    }

    /// The character that writes the sign.
    pub open spec fn symbol(self) -> char {
        match self {
            Sign::Pos => '+',
            Sign::Neg => '-',
        }
    }

    /// Parse from the first byte of a signed numeric string.
    pub fn from_byte(b: u8) -> (r: Sign)
        ensures
            r == Sign::of_byte(b),
    {
        match b {
            45 => Sign::Neg,
            _ => Sign::Pos,
        }
    }

    /// Returns `true` for `Pos`.
    pub fn is_pos(&self) -> (r: bool)
        ensures
            r == (*self is Pos),
    {
        matches!(self, Sign::Pos)
    }

    /// Returns `true` for `Neg`.
    pub fn is_neg(&self) -> (r: bool)
        ensures
            r == (*self is Neg),
    {
        matches!(self, Sign::Neg)
    }

    /// Appends the sign character.
    pub fn write_to(&self, out: &mut String)
        ensures
            final(out)@ == old(out)@.push(self.symbol()),
    {
        match self {
            Sign::Pos => push_char(out, '+'),
            Sign::Neg => push_char(out, '-'),
        }
    }

    /// The sign as text: `+` or `-`.
    pub fn to_string(&self) -> (r: String)
        ensures
            r@ == seq![self.symbol()],
    {
        let mut out = String::new();
        self.write_to(&mut out);
        out
    }
}

/// The content of a latitude or longitude, in one of its three notations.
pub enum AngleV {
    Deg { sign: Sign, degrees: DecimalV },
    DegMin { sign: Sign, degrees: nat, minutes: DecimalV },
    Dms { sign: Sign, degrees: nat, minutes: nat, seconds: DecimalV },
}

impl AngleV {
    pub open spec fn sign(self) -> Sign {
        match self {
            AngleV::Deg { sign, .. } => sign,
            AngleV::DegMin { sign, .. } => sign,
            AngleV::Dms { sign, .. } => sign,
        }
    }
}

// ---------------------------------------------------------------------------
// Text
// ---------------------------------------------------------------------------

/// The text of an angle whose degrees take at least `w` digits (2 for a
/// latitude, 3 for a longitude).
pub open spec fn angle_text(a: AngleV, w: nat) -> Seq<char> {
    match a {
        AngleV::Deg { sign, degrees } => seq![sign.symbol()] + fixed_text(degrees, w, 4),
        AngleV::DegMin { sign, degrees, minutes } => seq![sign.symbol()] + zero_pad(
            nat_text(degrees),
            w,
        ) + part_text(minutes, 4),
        AngleV::Dms { sign, degrees, minutes, seconds } => seq![sign.symbol()] + zero_pad(
            nat_text(degrees),
            w,
        ) + zero_pad(nat_text(minutes), 2) + part_text(seconds, 6),
    }
}

/// The text of an altitude: its sign and the shortest text of its value.
pub open spec fn altitude_text(a: AltitudeV) -> Seq<char> {
    seq![a.sign.symbol()] + plain_text(a.value)
}

/// The text of a CRS identifier: `CRS` and the identifier.
pub open spec fn crs_text(id: Seq<char>) -> Seq<char> {
    seq!['C', 'R', 'S'] + id
}

/// The text of a coordinate: latitude, longitude, altitude and CRS
/// identifier when present, and the solidus.
pub open spec fn coordinate_text(c: CoordinateV) -> Seq<char> {
    angle_text(c.latitude, 2) + angle_text(c.longitude, 3) + match c.altitude {
        Some(a) => altitude_text(a),
        None => Seq::empty(),
    } + match c.crs {
        Some(id) => crs_text(id),
        None => Seq::empty(),
    } + seq!['/']
}

// ---------------------------------------------------------------------------
// Latitude
// ---------------------------------------------------------------------------

/// Decimal degrees latitude: `±DD.DDD` (0.0–90.0).
#[derive(Debug, Clone, PartialEq)]
pub struct LatDeg {
    /// Sign (N=`+`, S=`-`).
    sign: Sign,
    /// Degrees value (0.0–90.0).
    degrees: Decimal,
}

impl View for LatDeg {
    type V = AngleV;

    closed spec fn view(&self) -> AngleV {
        AngleV::Deg { sign: self.sign, degrees: self.degrees@ }
    }
}

impl LatDeg {
    /// Creates a new decimal degrees latitude.
    pub fn new(sign: Sign, degrees: Decimal) -> (r: Self)
        ensures
            r@ == (AngleV::Deg { sign, degrees: degrees@ }),
    {
        Self { sign, degrees }
    }

    /// Returns the sign.
    pub fn sign(&self) -> (r: Sign)
        ensures
            r == self@.sign(),
    {
        self.sign
    }

    /// Returns the degrees value.
    pub fn degrees(&self) -> (r: &Decimal)
        ensures
            self@ matches AngleV::Deg { degrees, .. } && r@ == degrees,
    {
        &self.degrees
    }

    /// Appends the text of this value.
    pub fn write_to(&self, out: &mut String)
        ensures
            final(out)@ == old(out)@ + angle_text(self@, 2),
    {
        let ghost before = out@;
        self.sign.write_to(out);
        push_fixed(out, &self.degrees, 2, 4);
        assert(out@ =~= before + angle_text(self@, 2));
    }

    /// The ISO 6709 text of this value.
    pub fn to_string(&self) -> (r: String)
        ensures
            r@ == angle_text(self@, 2),
    {
        let mut out = String::new();
        self.write_to(&mut out);
        assert(out@ =~= angle_text(self@, 2));
        out
    }
}

/// Degrees and decimal minutes latitude: `±DDMM.MMM`.
#[derive(Debug, Clone, PartialEq)]
pub struct LatDegMin {
    /// Sign (N=`+`, S=`-`).
    sign: Sign,
    /// Integer degrees (0–90).
    degrees: u8,
    /// Minutes value (0.0–59.999…).
    minutes: Decimal,
}

impl View for LatDegMin {
    type V = AngleV;

    closed spec fn view(&self) -> AngleV {
        AngleV::DegMin { sign: self.sign, degrees: self.degrees as nat, minutes: self.minutes@ }
    }
}

impl LatDegMin {
    /// Creates a new degrees+minutes latitude.
    pub fn new(sign: Sign, degrees: u8, minutes: Decimal) -> (r: Self)
        ensures
            r@ == (AngleV::DegMin { sign, degrees: degrees as nat, minutes: minutes@ }),
    {
        Self { sign, degrees, minutes }
    }

    /// Returns the sign.
    pub fn sign(&self) -> (r: Sign)
        ensures
            r == self@.sign(),
    {
        self.sign
    }

    /// Returns the integer degrees.
    pub fn degrees(&self) -> (r: u8)
        ensures
            self@ matches AngleV::DegMin { degrees, .. } && r == degrees,
    {
        self.degrees
    }

    /// Returns the minutes value.
    pub fn minutes(&self) -> (r: &Decimal)
        ensures
            self@ matches AngleV::DegMin { minutes, .. } && r@ == minutes,
    {
        &self.minutes
    }

    /// Appends the text of this value.
    pub fn write_to(&self, out: &mut String)
        ensures
            final(out)@ == old(out)@ + angle_text(self@, 2),
    {
        let ghost before = out@;
        self.sign.write_to(out);
        push_nat_padded(out, self.degrees as u64, 2);
        push_part(out, &self.minutes, 4);
        assert(out@ =~= before + angle_text(self@, 2));
    }

    /// The ISO 6709 text of this value.
    pub fn to_string(&self) -> (r: String)
        ensures
            r@ == angle_text(self@, 2),
    {
        let mut out = String::new();
        self.write_to(&mut out);
        assert(out@ =~= angle_text(self@, 2));
        out
    }
}

/// Degrees, minutes, and decimal seconds latitude: `±DDMMSS.SSS`.
#[derive(Debug, Clone, PartialEq)]
pub struct LatDMS {
    /// Sign (N=`+`, S=`-`).
    sign: Sign,
    /// Integer degrees (0–90).
    degrees: u8,
    /// Integer minutes (0–59).
    minutes: u8,
    /// Seconds value (0.0–59.999…).
    seconds: Decimal,
}

impl View for LatDMS {
    type V = AngleV;

    closed spec fn view(&self) -> AngleV {
        AngleV::Dms {
            sign: self.sign,
            degrees: self.degrees as nat,
            minutes: self.minutes as nat,
            seconds: self.seconds@,
        }
    }
}

impl LatDMS {
    /// Creates a new DMS latitude.
    pub fn new(sign: Sign, degrees: u8, minutes: u8, seconds: Decimal) -> (r: Self)
        ensures
            r@ == (AngleV::Dms {
                sign,
                degrees: degrees as nat,
                minutes: minutes as nat,
                seconds: seconds@,
            }),
    {
        Self { sign, degrees, minutes, seconds }
    }

    /// Returns the sign.
    pub fn sign(&self) -> (r: Sign)
        ensures
            r == self@.sign(),
    {
        self.sign
    }

    /// Returns the integer degrees.
    pub fn degrees(&self) -> (r: u8)
        ensures
            self@ matches AngleV::Dms { degrees, .. } && r == degrees,
    {
        self.degrees
    }

    /// Returns the integer minutes.
    pub fn minutes(&self) -> (r: u8)
        ensures
            self@ matches AngleV::Dms { minutes, .. } && r == minutes,
    {
        self.minutes
    }

    /// Returns the seconds value.
    pub fn seconds(&self) -> (r: &Decimal)
        ensures
            self@ matches AngleV::Dms { seconds, .. } && r@ == seconds,
    {
        &self.seconds
    }

    /// Appends the text of this value.
    pub fn write_to(&self, out: &mut String)
        ensures
            final(out)@ == old(out)@ + angle_text(self@, 2),
    {
        let ghost before = out@;
        self.sign.write_to(out);
        push_nat_padded(out, self.degrees as u64, 2);
        push_nat_padded(out, self.minutes as u64, 2);
        push_part(out, &self.seconds, 6);
        assert(out@ =~= before + angle_text(self@, 2));
    }

    /// The ISO 6709 text of this value.
    pub fn to_string(&self) -> (r: String)
        ensures
            r@ == angle_text(self@, 2),
    {
        let mut out = String::new();
        self.write_to(&mut out);
        assert(out@ =~= angle_text(self@, 2));
        out
    }
}

/// Latitude component of an ISO 6709 coordinate.
///
/// Keeps the notation form it was written in (degrees, deg+min, or DMS)
/// for faithful round-trip serialization.
#[derive(Debug, Clone, PartialEq)]
pub enum Latitude {
    /// Decimal degrees: `±DD.DDD`
    Deg(LatDeg),
    /// Degrees and decimal minutes: `±DDMM.MMM`
    DegMin(LatDegMin),
    /// Degrees, minutes, and decimal seconds: `±DDMMSS.SSS`
    DMS(LatDMS),
}

impl View for Latitude {
    type V = AngleV;

    open spec fn view(&self) -> AngleV {
        match self {
            Latitude::Deg(v) => v@,
            Latitude::DegMin(v) => v@,
            Latitude::DMS(v) => v@,
        }
    }
}

impl Latitude {
    /// Returns the sign.
    pub fn sign(&self) -> (r: Sign)
        ensures
            r == self@.sign(),
    {
        match self {
            Latitude::Deg(v) => v.sign(),
            Latitude::DegMin(v) => v.sign(),
            Latitude::DMS(v) => v.sign(),
        }
    }

    /// Returns `true` for decimal degrees.
    pub fn is_deg(&self) -> (r: bool)
        ensures
            r == (*self is Deg),
    {
        matches!(self, Latitude::Deg(_))
    }

    /// Returns `true` for degrees and minutes.
    pub fn is_deg_min(&self) -> (r: bool)
        ensures
            r == (*self is DegMin),
    {
        matches!(self, Latitude::DegMin(_))
    }

    /// Returns `true` for degrees, minutes and seconds.
    pub fn is_dms(&self) -> (r: bool)
        ensures
            r == (*self is DMS),
    {
        matches!(self, Latitude::DMS(_))
    }

    /// Appends the text of this value.
    pub fn write_to(&self, out: &mut String)
        ensures
            final(out)@ == old(out)@ + angle_text(self@, 2),
    {
        match self {
            Latitude::Deg(v) => v.write_to(out),
            Latitude::DegMin(v) => v.write_to(out),
            Latitude::DMS(v) => v.write_to(out),
        }
    }

    /// The ISO 6709 text of this value.
    pub fn to_string(&self) -> (r: String)
        ensures
            r@ == angle_text(self@, 2),
    {
        let mut out = String::new();
        self.write_to(&mut out);
        assert(out@ =~= angle_text(self@, 2));
        out
    }
}

/// The variant's value; callers pass only a value of that variant.
impl Latitude {
    /// Returns the `Deg` value, consuming `self`.
    pub fn unwrap_deg(self) -> (r: LatDeg)
        requires
            self is Deg,
        ensures
            r@ == self@,
    {
        match self {
            Latitude::Deg(x) => x,
            _ => vstd::pervasive::unreached(),
        }
    }

    /// Returns a reference to the `Deg` value.
    pub fn unwrap_deg_ref(&self) -> (r: &LatDeg)
        requires
            *self is Deg,
        ensures
            r@ == self@,
    {
        match self {
            Latitude::Deg(x) => x,
            _ => vstd::pervasive::unreached(),
        }
    }

    /// Returns a mutable reference to the `Deg` value.
    pub fn unwrap_deg_mut(&mut self) -> (r: &mut LatDeg)
        requires
            *old(self) is Deg,
        ensures
            *r == old(self)->Deg_0,
            *final(self) == Latitude::Deg(*final(r)),
    {
        match self {
            Latitude::Deg(x) => x,
            _ => vstd::pervasive::unreached(),
        }
    }

    /// Returns the `DegMin` value, consuming `self`.
    pub fn unwrap_deg_min(self) -> (r: LatDegMin)
        requires
            self is DegMin,
        ensures
            r@ == self@,
    {
        match self {
            Latitude::DegMin(x) => x,
            _ => vstd::pervasive::unreached(),
        }
    }

    /// Returns a reference to the `DegMin` value.
    pub fn unwrap_deg_min_ref(&self) -> (r: &LatDegMin)
        requires
            *self is DegMin,
        ensures
            r@ == self@,
    {
        match self {
            Latitude::DegMin(x) => x,
            _ => vstd::pervasive::unreached(),
        }
    }

    /// Returns a mutable reference to the `DegMin` value.
    pub fn unwrap_deg_min_mut(&mut self) -> (r: &mut LatDegMin)
        requires
            *old(self) is DegMin,
        ensures
            *r == old(self)->DegMin_0,
            *final(self) == Latitude::DegMin(*final(r)),
    {
        match self {
            Latitude::DegMin(x) => x,
            _ => vstd::pervasive::unreached(),
        }
    }

    /// Returns the `DMS` value, consuming `self`.
    pub fn unwrap_dms(self) -> (r: LatDMS)
        requires
            self is DMS,
        ensures
            r@ == self@,
    {
        match self {
            Latitude::DMS(x) => x,
            _ => vstd::pervasive::unreached(),
        }
    }

    /// Returns a reference to the `DMS` value.
    pub fn unwrap_dms_ref(&self) -> (r: &LatDMS)
        requires
            *self is DMS,
        ensures
            r@ == self@,
    {
        match self {
            Latitude::DMS(x) => x,
            _ => vstd::pervasive::unreached(),
        }
    }

    /// Returns a mutable reference to the `DMS` value.
    pub fn unwrap_dms_mut(&mut self) -> (r: &mut LatDMS)
        requires
            *old(self) is DMS,
        ensures
            *r == old(self)->DMS_0,
            *final(self) == Latitude::DMS(*final(r)),
    {
        match self {
            Latitude::DMS(x) => x,
            _ => vstd::pervasive::unreached(),
        }
    }
}

// ---------------------------------------------------------------------------
// Longitude
// ---------------------------------------------------------------------------

/// Decimal degrees longitude: `±DDD.DDD` (0.0–180.0).
#[derive(Debug, Clone, PartialEq)]
pub struct LonDeg {
    /// Sign (E=`+`, W=`-`).
    sign: Sign,
    /// Degrees value (0.0–180.0).
    degrees: Decimal,
}

impl View for LonDeg {
    type V = AngleV;

    closed spec fn view(&self) -> AngleV {
        AngleV::Deg { sign: self.sign, degrees: self.degrees@ }
    }
}

impl LonDeg {
    /// Creates a new decimal degrees longitude.
    pub fn new(sign: Sign, degrees: Decimal) -> (r: Self)
        ensures
            r@ == (AngleV::Deg { sign, degrees: degrees@ }),
    {
        Self { sign, degrees }
    }

    /// Returns the sign.
    pub fn sign(&self) -> (r: Sign)
        ensures
            r == self@.sign(),
    {
        self.sign
    }

    /// Returns the degrees value.
    pub fn degrees(&self) -> (r: &Decimal)
        ensures
            self@ matches AngleV::Deg { degrees, .. } && r@ == degrees,
    {
        &self.degrees
    }

    /// Appends the text of this value.
    pub fn write_to(&self, out: &mut String)
        ensures
            final(out)@ == old(out)@ + angle_text(self@, 3),
    {
        let ghost before = out@;
        self.sign.write_to(out);
        push_fixed(out, &self.degrees, 3, 4);
        assert(out@ =~= before + angle_text(self@, 3));
    }

    /// The ISO 6709 text of this value.
    pub fn to_string(&self) -> (r: String)
        ensures
            r@ == angle_text(self@, 3),
    {
        let mut out = String::new();
        self.write_to(&mut out);
        assert(out@ =~= angle_text(self@, 3));
        out
    }
}

/// Degrees and decimal minutes longitude: `±DDDMM.MMM`.
#[derive(Debug, Clone, PartialEq)]
pub struct LonDegMin {
    /// Sign (E=`+`, W=`-`).
    sign: Sign,
    /// Integer degrees (0–180).
    degrees: u16,
    /// Minutes value (0.0–59.999…).
    minutes: Decimal,
}

impl View for LonDegMin {
    type V = AngleV;

    closed spec fn view(&self) -> AngleV {
        AngleV::DegMin { sign: self.sign, degrees: self.degrees as nat, minutes: self.minutes@ }
    }
}

impl LonDegMin {
    /// Creates a new degrees+minutes longitude.
    pub fn new(sign: Sign, degrees: u16, minutes: Decimal) -> (r: Self)
        ensures
            r@ == (AngleV::DegMin { sign, degrees: degrees as nat, minutes: minutes@ }),
    {
        Self { sign, degrees, minutes }
    }

    /// Returns the sign.
    pub fn sign(&self) -> (r: Sign)
        ensures
            r == self@.sign(),
    {
        self.sign
    }

    /// Returns the integer degrees.
    pub fn degrees(&self) -> (r: u16)
        ensures
            self@ matches AngleV::DegMin { degrees, .. } && r == degrees,
    {
        self.degrees
    }

    /// Returns the minutes value.
    pub fn minutes(&self) -> (r: &Decimal)
        ensures
            self@ matches AngleV::DegMin { minutes, .. } && r@ == minutes,
    {
        &self.minutes
    }

    /// Appends the text of this value.
    pub fn write_to(&self, out: &mut String)
        ensures
            final(out)@ == old(out)@ + angle_text(self@, 3),
    {
        let ghost before = out@;
        self.sign.write_to(out);
        push_nat_padded(out, self.degrees as u64, 3);
        push_part(out, &self.minutes, 4);
        assert(out@ =~= before + angle_text(self@, 3));
    }

    /// The ISO 6709 text of this value.
    pub fn to_string(&self) -> (r: String)
        ensures
            r@ == angle_text(self@, 3),
    {
        let mut out = String::new();
        self.write_to(&mut out);
        assert(out@ =~= angle_text(self@, 3));
        out
    }
}

/// Degrees, minutes, and decimal seconds longitude: `±DDDMMSS.SSS`.
#[derive(Debug, Clone, PartialEq)]
pub struct LonDMS {
    /// Sign (E=`+`, W=`-`).
    sign: Sign,
    /// Integer degrees (0–180).
    degrees: u16,
    /// Integer minutes (0–59).
    minutes: u8,
    /// Seconds value (0.0–59.999…).
    seconds: Decimal,
}

impl View for LonDMS {
    type V = AngleV;

    closed spec fn view(&self) -> AngleV {
        AngleV::Dms {
            sign: self.sign,
            degrees: self.degrees as nat,
            minutes: self.minutes as nat,
            seconds: self.seconds@,
        }
    }
}

impl LonDMS {
    /// Creates a new DMS longitude.
    pub fn new(sign: Sign, degrees: u16, minutes: u8, seconds: Decimal) -> (r: Self)
        ensures
            r@ == (AngleV::Dms {
                sign,
                degrees: degrees as nat,
                minutes: minutes as nat,
                seconds: seconds@,
            }),
    {
        Self { sign, degrees, minutes, seconds }
    }

    /// Returns the sign.
    pub fn sign(&self) -> (r: Sign)
        ensures
            r == self@.sign(),
    {
        self.sign
    }

    /// Returns the integer degrees.
    pub fn degrees(&self) -> (r: u16)
        ensures
            self@ matches AngleV::Dms { degrees, .. } && r == degrees,
    {
        self.degrees
    }

    /// Returns the integer minutes.
    pub fn minutes(&self) -> (r: u8)
        ensures
            self@ matches AngleV::Dms { minutes, .. } && r == minutes,
    {
        self.minutes
    }

    /// Returns the seconds value.
    pub fn seconds(&self) -> (r: &Decimal)
        ensures
            self@ matches AngleV::Dms { seconds, .. } && r@ == seconds,
    {
        &self.seconds
    }

    /// Appends the text of this value.
    pub fn write_to(&self, out: &mut String)
        ensures
            final(out)@ == old(out)@ + angle_text(self@, 3),
    {
        let ghost before = out@;
        self.sign.write_to(out);
        push_nat_padded(out, self.degrees as u64, 3);
        push_nat_padded(out, self.minutes as u64, 2);
        push_part(out, &self.seconds, 6);
        assert(out@ =~= before + angle_text(self@, 3));
    }

    /// The ISO 6709 text of this value.
    pub fn to_string(&self) -> (r: String)
        ensures
            r@ == angle_text(self@, 3),
    {
        let mut out = String::new();
        self.write_to(&mut out);
        assert(out@ =~= angle_text(self@, 3));
        out
    }
}

/// Longitude component of an ISO 6709 coordinate.
///
/// Keeps the notation form it was written in, so that it is written back the same way.
#[derive(Debug, Clone, PartialEq)]
pub enum Longitude {
    /// Decimal degrees: `±DDD.DDD`
    Deg(LonDeg),
    /// Degrees and decimal minutes: `±DDDMM.MMM`
    DegMin(LonDegMin),
    /// Degrees, minutes, and decimal seconds: `±DDDMMSS.SSS`
    DMS(LonDMS),
}

impl View for Longitude {
    type V = AngleV;

    open spec fn view(&self) -> AngleV {
        match self {
            Longitude::Deg(v) => v@,
            Longitude::DegMin(v) => v@,
            Longitude::DMS(v) => v@,
        }
    }
}

impl Longitude {
    /// Returns the sign.
    pub fn sign(&self) -> (r: Sign)
        ensures
            r == self@.sign(),
    {
        match self {
            Longitude::Deg(v) => v.sign(),
            Longitude::DegMin(v) => v.sign(),
            Longitude::DMS(v) => v.sign(),
        }
    }

    /// Returns `true` for decimal degrees.
    pub fn is_deg(&self) -> (r: bool)
        ensures
            r == (*self is Deg),
    {
        matches!(self, Longitude::Deg(_))
    }

    /// Returns `true` for degrees and minutes.
    pub fn is_deg_min(&self) -> (r: bool)
        ensures
            r == (*self is DegMin),
    {
        matches!(self, Longitude::DegMin(_))
    }

    /// Returns `true` for degrees, minutes and seconds.
    pub fn is_dms(&self) -> (r: bool)
        ensures
            r == (*self is DMS),
    {
        matches!(self, Longitude::DMS(_))
    }

    /// Appends the text of this value.
    pub fn write_to(&self, out: &mut String)
        ensures
            final(out)@ == old(out)@ + angle_text(self@, 3),
    {
        match self {
            Longitude::Deg(v) => v.write_to(out),
            Longitude::DegMin(v) => v.write_to(out),
            Longitude::DMS(v) => v.write_to(out),
        }
    }

    /// The ISO 6709 text of this value.
    pub fn to_string(&self) -> (r: String)
        ensures
            r@ == angle_text(self@, 3),
    {
        let mut out = String::new();
        self.write_to(&mut out);
        assert(out@ =~= angle_text(self@, 3));
        out
    }
}

/// The variant's value; callers pass only a value of that variant.
impl Longitude {
    /// Returns the `Deg` value, consuming `self`.
    pub fn unwrap_deg(self) -> (r: LonDeg)
        requires
            self is Deg,
        ensures
            r@ == self@,
    {
        match self {
            Longitude::Deg(x) => x,
            _ => vstd::pervasive::unreached(),
        }
    }

    /// Returns a reference to the `Deg` value.
    pub fn unwrap_deg_ref(&self) -> (r: &LonDeg)
        requires
            *self is Deg,
        ensures
            r@ == self@,
    {
        match self {
            Longitude::Deg(x) => x,
            _ => vstd::pervasive::unreached(),
        }
    }

    /// Returns a mutable reference to the `Deg` value.
    pub fn unwrap_deg_mut(&mut self) -> (r: &mut LonDeg)
        requires
            *old(self) is Deg,
        ensures
            *r == old(self)->Deg_0,
            *final(self) == Longitude::Deg(*final(r)),
    {
        match self {
            Longitude::Deg(x) => x,
            _ => vstd::pervasive::unreached(),
        }
    }

    /// Returns the `DegMin` value, consuming `self`.
    pub fn unwrap_deg_min(self) -> (r: LonDegMin)
        requires
            self is DegMin,
        ensures
            r@ == self@,
    {
        match self {
            Longitude::DegMin(x) => x,
            _ => vstd::pervasive::unreached(),
        }
    }

    /// Returns a reference to the `DegMin` value.
    pub fn unwrap_deg_min_ref(&self) -> (r: &LonDegMin)
        requires
            *self is DegMin,
        ensures
            r@ == self@,
    {
        match self {
            Longitude::DegMin(x) => x,
            _ => vstd::pervasive::unreached(),
        }
    }

    /// Returns a mutable reference to the `DegMin` value.
    pub fn unwrap_deg_min_mut(&mut self) -> (r: &mut LonDegMin)
        requires
            *old(self) is DegMin,
        ensures
            *r == old(self)->DegMin_0,
            *final(self) == Longitude::DegMin(*final(r)),
    {
        match self {
            Longitude::DegMin(x) => x,
            _ => vstd::pervasive::unreached(),
        }
    }

    /// Returns the `DMS` value, consuming `self`.
    pub fn unwrap_dms(self) -> (r: LonDMS)
        requires
            self is DMS,
        ensures
            r@ == self@,
    {
        match self {
            Longitude::DMS(x) => x,
            _ => vstd::pervasive::unreached(),
        }
    }

    /// Returns a reference to the `DMS` value.
    pub fn unwrap_dms_ref(&self) -> (r: &LonDMS)
        requires
            *self is DMS,
        ensures
            r@ == self@,
    {
        match self {
            Longitude::DMS(x) => x,
            _ => vstd::pervasive::unreached(),
        }
    }

    /// Returns a mutable reference to the `DMS` value.
    pub fn unwrap_dms_mut(&mut self) -> (r: &mut LonDMS)
        requires
            *old(self) is DMS,
        ensures
            *r == old(self)->DMS_0,
            *final(self) == Longitude::DMS(*final(r)),
    {
        match self {
            Longitude::DMS(x) => x,
            _ => vstd::pervasive::unreached(),
        }
    }
}

// ---------------------------------------------------------------------------
// Altitude & CRS
// ---------------------------------------------------------------------------

/// The content of an altitude.
pub struct AltitudeV {
    pub sign: Sign,
    pub value: DecimalV,
}

/// Altitude in meters.
#[derive(Debug, Clone, PartialEq)]
pub struct Altitude {
    sign: Sign,
    value: Decimal,
}

impl View for Altitude {
    type V = AltitudeV;

    closed spec fn view(&self) -> AltitudeV {
        AltitudeV { sign: self.sign, value: self.value@ }
    }
}

impl Altitude {
    /// Creates a new altitude.
    pub fn new(sign: Sign, value: Decimal) -> (r: Self)
        ensures
            r@ == (AltitudeV { sign, value: value@ }),
    {
        Self { sign, value }
    }

    /// Returns the sign.
    pub fn sign(&self) -> (r: Sign)
        ensures
            r == self@.sign,
    {
        self.sign
    }

    /// Returns the unsigned altitude value in meters.
    pub fn value(&self) -> (r: &Decimal)
        ensures
            r@ == self@.value,
    {
        &self.value
    }

    /// Appends the text of this altitude.
    pub fn write_to(&self, out: &mut String)
        ensures
            final(out)@ == old(out)@ + altitude_text(self@),
    {
        let ghost before = out@;
        self.sign.write_to(out);
        push_plain(out, &self.value);
        assert(out@ =~= before + altitude_text(self@));
    }

    /// The ISO 6709 text of this altitude.
    pub fn to_string(&self) -> (r: String)
        ensures
            r@ == altitude_text(self@),
    {
        let mut out = String::new();
        self.write_to(&mut out);
        assert(out@ =~= altitude_text(self@));
        out
    }
}

/// CRS (Coordinate Reference System) identifier.
///
/// Zero-copy: borrows the identifier string from the input.
/// The `CRS` prefix is stripped; e.g., for input `CRSepsg4326`, the
/// id is `epsg4326`.
#[derive(Debug, Clone, Copy, PartialEq, Eq, Hash)]
pub struct CrsId<'a>(&'a str);

impl<'a> View for CrsId<'a> {
    type V = Seq<char>;

    closed spec fn view(&self) -> Seq<char> {
        self.0@
    }
}

impl<'a> CrsId<'a> {
    /// Creates a new CRS identifier.
    pub fn new(id: &'a str) -> (r: Self)
        ensures
            r@ == id@,
    {
        Self(id)
    }

    /// Returns the identifier string (without the `CRS` prefix).
    pub fn as_str(&self) -> (r: &'a str)
        ensures
            r@ == self@,
    {
        self.0
    }

    /// Appends `CRS` and the identifier.
    pub fn write_to(&self, out: &mut String)
        ensures
            final(out)@ == old(out)@ + crs_text(self@),
    {
        let ghost before = out@;
        push_char(out, 'C');
        push_char(out, 'R');
        push_char(out, 'S');
        push_str(out, self.0);
        assert(out@ =~= before + crs_text(self@));
    }

    /// The ISO 6709 text of this identifier: `CRS` and the identifier.
    pub fn to_string(&self) -> (r: String)
        ensures
            r@ == crs_text(self@),
    {
        let mut out = String::new();
        self.write_to(&mut out);
        assert(out@ =~= crs_text(self@));
        out
    }
}

// ---------------------------------------------------------------------------
// Coordinate
// ---------------------------------------------------------------------------

/// The content of a coordinate.
pub struct CoordinateV {
    pub latitude: AngleV,
    pub longitude: AngleV,
    pub altitude: Option<AltitudeV>,
    pub crs: Option<Seq<char>>,
}

/// A parsed ISO 6709 geographic coordinate.
#[derive(Debug, Clone, PartialEq)]
pub struct Coordinate<'a> {
    latitude: Latitude,
    longitude: Longitude,
    altitude: Option<Altitude>,
    crs: Option<CrsId<'a>>,
}

pub open spec fn altitude_view(a: Option<Altitude>) -> Option<AltitudeV> {
    match a {
        Some(v) => Some(v@),
        None => None,
    }
}

pub open spec fn crs_view<'a>(c: Option<CrsId<'a>>) -> Option<Seq<char>> {
    match c {
        Some(v) => Some(v@),
        None => None,
    }
}

impl<'a> View for Coordinate<'a> {
    type V = CoordinateV;

    closed spec fn view(&self) -> CoordinateV {
        CoordinateV {
            latitude: self.latitude@,
            longitude: self.longitude@,
            altitude: altitude_view(self.altitude),
            crs: crs_view(self.crs),
        }
    }
}

impl<'a> Coordinate<'a> {
    /// Creates a new coordinate.
    pub fn new(
        latitude: Latitude,
        longitude: Longitude,
        altitude: Option<Altitude>,
        crs: Option<CrsId<'a>>,
    ) -> (r: Self)
        ensures
            r@ == (CoordinateV {
                latitude: latitude@,
                longitude: longitude@,
                altitude: altitude_view(altitude),
                crs: crs_view(crs),
            }),
    {
        Self { latitude, longitude, altitude, crs }
    }

    /// Returns the latitude component.
    pub fn latitude(&self) -> (r: &Latitude)
        ensures
            r@ == self@.latitude,
    {
        &self.latitude
    }

    /// Returns the longitude component.
    pub fn longitude(&self) -> (r: &Longitude)
        ensures
            r@ == self@.longitude,
    {
        &self.longitude
    }

    /// Returns the altitude component, if present.
    pub fn altitude(&self) -> (r: Option<&Altitude>)
        ensures
            match r {
                Some(a) => self@.altitude == Some(a@),
                None => self@.altitude is None,
            },
    {
        self.altitude.as_ref()
    }

    /// Returns the CRS identifier, if present.
    pub fn crs(&self) -> (r: Option<&CrsId<'a>>)
        ensures
            match r {
                Some(c) => self@.crs == Some(c@),
                None => self@.crs is None,
            },
    {
        self.crs.as_ref()
    }

    /// The ISO 6709 text of this coordinate.
    pub fn to_string(&self) -> (r: String)
        ensures
            r@ == coordinate_text(self@),
    {
        let mut out = String::new();
        self.latitude.write_to(&mut out);
        self.longitude.write_to(&mut out);
        let ghost mid = out@;
        match &self.altitude {
            Some(a) => a.write_to(&mut out),
            None => {},
        }
        let ghost mid2 = out@;
        match &self.crs {
            Some(c) => c.write_to(&mut out),
            None => {},
        }
        let ghost mid3 = out@;
        push_char(&mut out, '/');
        assert(out@ =~= coordinate_text(self@)) by {
            assert(mid =~= angle_text(self@.latitude, 2) + angle_text(self@.longitude, 3));
            match self.altitude {
                Some(a) => assert(mid2 =~= mid + altitude_text(a@)),
                None => assert(mid2 =~= mid + Seq::<char>::empty()),
            }
            match self.crs {
                Some(c) => assert(mid3 =~= mid2 + crs_text(c@)),
                None => assert(mid3 =~= mid2 + Seq::<char>::empty()),
            }
        }
        out
    }
}

} // verus!
