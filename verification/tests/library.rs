use locat::decimal::{all_zeros, digits_value_at_most, scan_digits};
use locat::digits::{digit2, digit3, memchr_dot};
use locat::token::{Lexer, Token};
use locat::{
    parse, Altitude, Amount, Component, Coordinate, CrsId, Decimal, LatDMS, LatDeg, LatDegMin,
    Latitude, LonDMS, LonDeg, LonDegMin, Longitude, ParseError, Sign,
};

fn dec(s: &str) -> Decimal {
    Decimal::parse(s).unwrap()
}

// ---- Lexer ----

#[test]
fn lexer_reads_tokens_and_spans() {
    let mut lx = Lexer::new(b"+40.7128-074.0060/");
    assert_eq!(lx.next(), Some(Ok(Token::Signed2(b"+40.7128"))));
    assert_eq!(lx.span(), 0..8);
    assert_eq!(lx.next(), Some(Ok(Token::Signed3(b"-074.0060"))));
    assert_eq!(lx.span(), 8..17);
    assert_eq!(lx.next(), Some(Ok(Token::Solidus)));
    assert_eq!(lx.span(), 17..18);
    assert_eq!(lx.next(), None);
    assert_eq!(lx.span(), 18..18);
}

#[test]
fn lexer_digit_counts() {
    let mut lx = Lexer::new(b"+1+1234+12345678.5CRSab12/");
    assert_eq!(lx.next(), Some(Ok(Token::SignedOther(b"+1"))));
    assert_eq!(lx.next(), Some(Ok(Token::Signed4(b"+1234"))));
    assert_eq!(lx.next(), Some(Ok(Token::SignedOther(b"+12345678.5"))));
    assert_eq!(lx.next(), Some(Ok(Token::CrsId(b"CRSab12"))));
    assert_eq!(lx.next(), Some(Ok(Token::Solidus)));
}

#[test]
fn lexer_every_width() {
    let mut lx = Lexer::new(b"+12+123+1234+12345+123456+1234567");
    assert_eq!(lx.next(), Some(Ok(Token::Signed2(b"+12"))));
    assert_eq!(lx.next(), Some(Ok(Token::Signed3(b"+123"))));
    assert_eq!(lx.next(), Some(Ok(Token::Signed4(b"+1234"))));
    assert_eq!(lx.next(), Some(Ok(Token::Signed5(b"+12345"))));
    assert_eq!(lx.next(), Some(Ok(Token::Signed6(b"+123456"))));
    assert_eq!(lx.next(), Some(Ok(Token::Signed7(b"+1234567"))));
    assert_eq!(lx.next(), None);
}

#[test]
fn lexer_errors() {
    let mut lx = Lexer::new(b"CRS/");
    assert_eq!(lx.next(), Some(Err(())));
    assert_eq!(lx.span(), 0..1);

    let mut lx = Lexer::new(b"+.5");
    assert_eq!(lx.next(), Some(Err(())));
    assert_eq!(lx.span(), 0..1);

    // A dot with no digit after it ends the number before the dot.
    let mut lx = Lexer::new(b"+40./");
    assert_eq!(lx.next(), Some(Ok(Token::Signed2(b"+40"))));
    assert_eq!(lx.next(), Some(Err(())));
    assert_eq!(lx.span(), 3..4);
    assert_eq!(lx.next(), Some(Ok(Token::Solidus)));
}

#[test]
fn token_signed_text() {
    assert_eq!(Token::Signed2(b"+40").as_signed_str(), Some(&b"+40"[..]));
    assert_eq!(Token::SignedOther(b"-1").as_signed_str(), Some(&b"-1"[..]));
    assert_eq!(Token::CrsId(b"CRSx").as_signed_str(), None);
    assert_eq!(Token::Solidus.as_signed_str(), None);
}

// ---- Numbers ----

#[test]
fn decimal_parse_and_text() {
    assert_eq!(dec("12.50").to_string(), "12.5");
    assert_eq!(dec("007").to_string(), "7");
    assert_eq!(dec("0.000").to_string(), "0");
    assert_eq!(dec("040.0700").to_string(), "40.07");
    assert_eq!(dec("12.50").int_digits(), b"12");
    assert_eq!(dec("12.50").frac_digits(), b"50");
    assert!(Decimal::parse("").is_none());
    assert!(Decimal::parse("1.").is_none());
    assert!(Decimal::parse(".5").is_none());
    assert!(Decimal::parse("1e5").is_none());
    assert!(Decimal::parse("-1").is_none());
}

#[test]
fn decimal_comparisons() {
    assert!(dec("90.0001").greater_than(90));
    assert!(!dec("90.000").greater_than(90));
    assert!(dec("60").at_least(60));
    assert!(!dec("59.9999").at_least(60));
    assert!(dec("00.00").is_zero());
    assert!(!dec("0.01").is_zero());
    assert!(Decimal::zero().is_zero());
    assert_eq!(Decimal::from_number_bytes(b"3.25").to_string(), "3.25");
    assert_eq!(Decimal::from_int_digits(b"0042").to_string(), "42");
}

#[test]
fn digit_helpers() {
    assert_eq!(digit2(b"47"), 47);
    assert_eq!(digit3(b"180"), 180);
    assert_eq!(memchr_dot(b"12.5"), Some(2));
    assert_eq!(memchr_dot(b"125"), None);
    assert_eq!(scan_digits(b"+123.4", 1), 4);
    assert_eq!(digits_value_at_most(b"181", 180), None);
    assert_eq!(digits_value_at_most(b"0180", 180), Some(180));
    assert!(all_zeros(b"000"));
    assert!(!all_zeros(b"010"));
}

// ---- Writing ----

#[test]
fn lat_deg_text_rounds_halves_to_even() {
    assert_eq!(LatDeg::new(Sign::Pos, dec("0.03125")).to_string(), "+00.0312");
    assert_eq!(LatDeg::new(Sign::Pos, dec("0.03135")).to_string(), "+00.0314");
    assert_eq!(LatDeg::new(Sign::Pos, dec("0.031250001")).to_string(), "+00.0313");
    assert_eq!(LatDeg::new(Sign::Pos, dec("5.5")).to_string(), "+05.5000");
    assert_eq!(LatDeg::new(Sign::Pos, dec("5.12346")).to_string(), "+05.1235");
    assert_eq!(LatDeg::new(Sign::Neg, dec("9.99996")).to_string(), "-10.0000");
    assert_eq!(LatDeg::new(Sign::Pos, dec("90")).to_string(), "+90.0000");
}

#[test]
fn lon_deg_text() {
    assert_eq!(LonDeg::new(Sign::Neg, dec("74.006")).to_string(), "-074.0060");
    assert_eq!(LonDeg::new(Sign::Pos, dec("0")).to_string(), "+000.0000");
}

#[test]
fn deg_min_text() {
    assert_eq!(LatDegMin::new(Sign::Pos, 40, dec("42.77")).to_string(), "+4042.7700");
    assert_eq!(LatDegMin::new(Sign::Pos, 40, dec("42.0")).to_string(), "+4042");
    assert_eq!(LatDegMin::new(Sign::Neg, 5, dec("3")).to_string(), "-0503");
    assert_eq!(LonDegMin::new(Sign::Neg, 74, dec("0.36")).to_string(), "-07400.3600");
    assert_eq!(LonDegMin::new(Sign::Pos, 7, dec("59")).to_string(), "+00759");
    // A whole number of minutes above 255 is written with four decimals.
    assert_eq!(LatDegMin::new(Sign::Pos, 1, dec("300")).to_string(), "+01300.0000");
}

#[test]
fn dms_text() {
    assert_eq!(LatDMS::new(Sign::Neg, 40, 42, dec("43.123")).to_string(), "-404243.123000");
    assert_eq!(LatDMS::new(Sign::Pos, 40, 42, dec("43")).to_string(), "+404243");
    assert_eq!(LonDMS::new(Sign::Neg, 74, 0, dec("2.456")).to_string(), "-0740002.456000");
    assert_eq!(LonDMS::new(Sign::Pos, 74, 0, dec("2")).to_string(), "+0740002");
}

#[test]
fn altitude_and_crs_text() {
    assert_eq!(Altitude::new(Sign::Pos, dec("8848.860")).to_string(), "+8848.86");
    assert_eq!(Altitude::new(Sign::Neg, dec("422")).to_string(), "-422");
    assert_eq!(Altitude::new(Sign::Pos, dec("0.5")).to_string(), "+0.5");
    assert_eq!(CrsId::new("epsg4326").to_string(), "CRSepsg4326");
    assert_eq!(CrsId::new("epsg4326").as_str(), "epsg4326");
    assert_eq!(Sign::Pos.to_string(), "+");
    assert_eq!(Sign::Neg.to_string(), "-");
}

#[test]
fn coordinate_text() {
    let c = Coordinate::new(
        Latitude::Deg(LatDeg::new(Sign::Pos, dec("27.5916"))),
        Longitude::Deg(LonDeg::new(Sign::Pos, dec("86.564"))),
        Some(Altitude::new(Sign::Pos, dec("8848"))),
        Some(CrsId::new("epsg4326")),
    );
    assert_eq!(c.to_string(), "+27.5916+086.5640+8848CRSepsg4326/");
    assert_eq!(c.latitude().to_string(), "+27.5916");
    assert_eq!(c.longitude().to_string(), "+086.5640");
}

#[test]
fn sign_from_byte() {
    assert_eq!(Sign::from_byte(b'-'), Sign::Neg);
    assert_eq!(Sign::from_byte(b'+'), Sign::Pos);
    assert_eq!(Sign::from_byte(b'x'), Sign::Pos);
}

// ---- Errors ----

#[test]
fn unexpected_positions() {
    assert_eq!(
        parse(""),
        Err(ParseError::Unexpected {
            position: 0,
            expected: "latitude (±DD, ±DDMM, or ±DDMMSS)"
        })
    );
    assert_eq!(
        parse("+40.7128-074.0060"),
        Err(ParseError::Unexpected {
            position: 17,
            expected: "altitude, CRS identifier, or '/'"
        })
    );
    assert_eq!(
        parse("+40-074+100hello/"),
        Err(ParseError::Unexpected { position: 11, expected: "CRS identifier or '/'" })
    );
    assert_eq!(
        parse("+40+00/"),
        Err(ParseError::Unexpected {
            position: 3,
            expected: "longitude (±DDD, ±DDDMM, or ±DDDMMSS)"
        })
    );
    assert_eq!(
        parse("+40-074CRSfoo+1"),
        Err(ParseError::Unexpected { position: 13, expected: "'/'" })
    );
}

#[test]
fn out_of_range_values() {
    assert_eq!(
        parse("+9030+00000/"),
        Err(ParseError::OutOfRange {
            component: Component::Latitude,
            value: Amount::new(dec("90"), dec("30"), Decimal::zero()),
        })
    );
    assert_eq!(
        parse("+90.5+000/"),
        Err(ParseError::OutOfRange { component: Component::Latitude, value: Amount::of(dec("90.5")) })
    );
    assert_eq!(
        parse("+00+180.0001/"),
        Err(ParseError::OutOfRange {
            component: Component::Longitude,
            value: Amount::of(dec("180.0001"))
        })
    );
}

#[test]
fn error_messages() {
    assert_eq!(
        parse("+91+000/").unwrap_err().to_string(),
        "latitude degrees value 91 out of range"
    );
    assert_eq!(
        parse("+0060.5+00000/").unwrap_err().to_string(),
        "minutes value 60.5 out of range"
    );
    assert_eq!(
        parse("+9030+00000/").unwrap_err().to_string(),
        "latitude degrees value 90.5 out of range"
    );
    assert_eq!(
        parse("+9000.6+00000/").unwrap_err().to_string(),
        "latitude degrees value 90.01 out of range"
    );
    assert_eq!(
        parse("+900001+0000000/").unwrap_err().to_string(),
        "latitude degrees value 90+0/60+1/3600 out of range"
    );
    assert_eq!(
        parse("+000000+1800001/").unwrap_err().to_string(),
        "longitude degrees value 180+0/60+1/3600 out of range"
    );
    assert_eq!(
        parse("+000000+1800036/").unwrap_err().to_string(),
        "longitude degrees value 180.01 out of range"
    );
    assert_eq!(
        parse("+40-074hello/").unwrap_err().to_string(),
        "unexpected input at byte 7, expected altitude, CRS identifier, or '/'"
    );
    assert_eq!(
        ParseError::InvalidNumber { position: 4 }.to_string(),
        "invalid number at byte 4"
    );
    assert!(ParseError::InvalidNumber { position: 4 }.is_invalid_number());
    assert_eq!(Component::Seconds.to_string(), "seconds");
    assert_eq!(Component::Longitude.to_string(), "longitude degrees");
}

// ---- Laws on concrete values ----

#[test]
fn written_coordinate_reads_back() {
    let c = Coordinate::new(
        Latitude::DMS(LatDMS::new(Sign::Neg, 33, 51, dec("54.500000"))),
        Longitude::DegMin(LonDegMin::new(Sign::Pos, 151, dec("12.5000"))),
        Some(Altitude::new(Sign::Pos, dec("58.25"))),
        Some(CrsId::new("wgs84")),
    );
    let text = c.to_string();
    assert_eq!(text, "-335154.500000+15112.5000+58.25CRSwgs84/");
    assert_eq!(parse(&text), Ok(c));
}

#[test]
fn bytes_after_solidus_are_refused() {
    assert_eq!(
        parse("+40-074/+41-075/"),
        Err(ParseError::Unexpected { position: 8, expected: "end of input after '/'" })
    );
    assert_eq!(
        parse("+40-074+5CRSx/+91"),
        Err(ParseError::Unexpected { position: 14, expected: "end of input after '/'" })
    );
    assert!(parse("+40-074//").is_err());
    assert!(parse("+40-074/").is_ok());
}

#[test]
fn parsed_values_are_in_range() {
    let c = parse("-90-180/").unwrap();
    match c.latitude() {
        Latitude::Deg(v) => assert!(!v.degrees().greater_than(90)),
        _ => unreachable!(),
    }
    match c.longitude() {
        Longitude::Deg(v) => assert!(!v.degrees().greater_than(180)),
        _ => unreachable!(),
    }
    assert!(parse("+90.0000000001+000/").is_err());
    assert!(parse("+8959.99999-17959.99999/").is_ok());
}

#[test]
fn errors_point_into_input() {
    for input in ["", "x", "+40", "+40-074", "+40-074+1", "+40-074CRSa", "+40-074+1CRSa"] {
        match parse(input) {
            Err(ParseError::Unexpected { position, .. }) => assert!(position <= input.len()),
            other => panic!("unexpected result {other:?}"),
        }
    }
}

#[test]
fn long_numbers_are_exact() {
    let c = parse("+12.123456789012345678901234567890+000/").unwrap();
    match c.latitude() {
        Latitude::Deg(v) => {
            assert_eq!(v.degrees().to_string(), "12.12345678901234567890123456789")
        }
        _ => unreachable!(),
    }
    let c = parse("+00+000+123456789012345678901234567890/").unwrap();
    assert_eq!(
        c.altitude().unwrap().value().to_string(),
        "123456789012345678901234567890"
    );
}

#[test]
fn unwrap_variants() {
    let c = parse("+4042.77-0740002.5/").unwrap();
    assert_eq!(c.latitude().unwrap_deg_min_ref().degrees(), 40);
    assert_eq!(c.longitude().unwrap_dms_ref().minutes(), 0);
    assert_eq!(c.longitude().clone().unwrap_dms().seconds().to_string(), "2.5");
    let d = parse("+40-074/").unwrap();
    assert_eq!(d.latitude().clone().unwrap_deg().degrees().to_string(), "40");
    assert_eq!(d.longitude().unwrap_deg_ref().degrees().to_string(), "74");
    assert!(d.latitude().is_deg() && !d.latitude().is_dms());
}


#[test]
fn decimals_compare_by_value() {
    assert_eq!(dec("40.50"), dec("040.5"));
    assert_eq!(dec("0.000"), Decimal::zero());
    assert_eq!(dec("7"), dec("7.0"));
    assert_ne!(dec("40.05"), dec("40.5"));
    assert_ne!(dec("1"), dec("10"));
    assert_ne!(dec("0.1"), dec("0.01"));
    assert_eq!(
        parse("+40.7128-074.0060/").unwrap(),
        parse("+40.71280-074.006/").unwrap()
    );
}

#[test]
fn minutes_and_seconds_near_sixty_read_back() {
    let m = LatDegMin::new(Sign::Pos, 40, dec("59.99999"));
    assert_eq!(m.to_string(), "+4059.99999");
    let text = m.to_string() + "+00000/";
    let c = parse(&text).unwrap();
    assert_eq!(c.latitude().unwrap_deg_min_ref(), &m);
    let s = LonDMS::new(Sign::Neg, 74, 59, dec("59.9999996"));
    assert_eq!(s.to_string(), "-0745959.9999996");
    let text = "+00".to_string() + &s.to_string() + "/";
    let c = parse(&text).unwrap();
    assert_eq!(c.longitude().unwrap_dms_ref(), &s);
    // Below the rounding edge the usual fixed digits are written.
    assert_eq!(LatDegMin::new(Sign::Pos, 40, dec("59.99994")).to_string(), "+4059.9999");
}

#[test]
fn unwrap_mut_changes_the_value() {
    let mut l = Latitude::Deg(LatDeg::new(Sign::Pos, dec("1")));
    *l.unwrap_deg_mut() = LatDeg::new(Sign::Neg, dec("2.5"));
    assert_eq!(l.to_string(), "-02.5000");
    let mut g = Longitude::DMS(LonDMS::new(Sign::Pos, 1, 2, dec("3")));
    *g.unwrap_dms_mut() = LonDMS::new(Sign::Pos, 4, 5, dec("6"));
    assert_eq!(g.to_string(), "+0040506");
}

#[test]
fn try_unwrap_variants() {
    let l = Latitude::Deg(LatDeg::new(Sign::Pos, dec("40")));
    assert_eq!(l.try_unwrap_deg_ref().unwrap().degrees(), &dec("40"));
    let err = l.try_unwrap_dms_ref().unwrap_err();
    assert_eq!(err.input, &l);
    assert_eq!(
        err.to_string(),
        "Attempt to call `Latitude::try_unwrap_dms_ref()` on a `Latitude::Deg` value"
    );
    let err = l.clone().try_unwrap_deg_min().unwrap_err();
    assert_eq!(
        err.to_string(),
        "Attempt to call `Latitude::try_unwrap_deg_min()` on a `Latitude::Deg` value"
    );
    assert_eq!(err.input, l);
    assert_eq!(l.clone().try_unwrap_deg().unwrap(), LatDeg::new(Sign::Pos, dec("40.0")));

    let mut g = Longitude::DegMin(LonDegMin::new(Sign::Neg, 74, dec("0.36")));
    assert!(g.try_unwrap_deg_mut().is_err());
    *g.try_unwrap_deg_min_mut().unwrap() = LonDegMin::new(Sign::Pos, 10, dec("5"));
    assert_eq!(g.to_string(), "+01005");
    assert_eq!(
        g.clone().try_unwrap_dms().unwrap_err().to_string(),
        "Attempt to call `Longitude::try_unwrap_dms()` on a `Longitude::DegMin` value"
    );
}

#[test]
fn written_forms_are_written_back() {
    for input in [
        "+40.7128-074.0060/",
        "+4042-07400/",
        "+4042.7700-07400.3600+12.5CRSabc/",
        "+404243-0740002/",
        "+404243.123000-0740002.456000-0CRSx1/",
        "+00.0000+000.0000+8848/",
        "-90.0000+180.0000CRSepsg4326/",
    ] {
        assert_eq!(parse(input).unwrap().to_string(), input);
    }
}

#[test]
fn long_digit_runs_keep_their_value() {
    let c = parse("+00+000+123456789012345678901234567890/").unwrap();
    assert_eq!(c.altitude().unwrap().value(), &dec("123456789012345678901234567890"));
}
