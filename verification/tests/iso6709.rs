use locat::{parse, Amount, Component, Decimal, Latitude, Longitude, ParseError, Sign};

/// The value of an exact decimal, as the nearest `f64`.
fn num(d: &Decimal) -> f64 {
    d.to_string().parse::<f64>().unwrap()
}

fn sign_factor(s: Sign) -> f64 {
    if s.is_neg() {
        -1.0
    } else {
        1.0
    }
}

/// Signed decimal degrees of a latitude.
fn lat_degrees(l: &Latitude) -> f64 {
    match l {
        Latitude::Deg(v) => sign_factor(v.sign()) * num(v.degrees()),
        Latitude::DegMin(v) => sign_factor(v.sign()) * (v.degrees() as f64 + num(v.minutes()) / 60.0),
        Latitude::DMS(v) => {
            sign_factor(v.sign())
                * (v.degrees() as f64 + v.minutes() as f64 / 60.0 + num(v.seconds()) / 3600.0)
        }
    }
}

/// Signed decimal degrees of a longitude.
fn lon_degrees(l: &Longitude) -> f64 {
    match l {
        Longitude::Deg(v) => sign_factor(v.sign()) * num(v.degrees()),
        Longitude::DegMin(v) => sign_factor(v.sign()) * (v.degrees() as f64 + num(v.minutes()) / 60.0),
        Longitude::DMS(v) => {
            sign_factor(v.sign())
                * (v.degrees() as f64 + v.minutes() as f64 / 60.0 + num(v.seconds()) / 3600.0)
        }
    }
}

/// The value of an out-of-range amount.
fn amount(a: &Amount) -> f64 {
    num(a.whole()) + num(a.minutes()) / 60.0 + num(a.seconds()) / 3600.0
}

// ---- Decimal degrees ----

#[test]
fn parse_decimal_degrees() {
    let coord = parse("+40.7128-074.0060/").unwrap();
    let lat = lat_degrees(coord.latitude());
    let lon = lon_degrees(coord.longitude());
    assert!((lat - 40.7128).abs() < 1e-10);
    assert!((lon - (-74.006)).abs() < 1e-10);
}

#[test]
fn parse_integer_degrees() {
    let coord = parse("+40-074/").unwrap();
    assert!((lat_degrees(coord.latitude()) - 40.0).abs() < 1e-10);
    assert!((lon_degrees(coord.longitude()) - (-74.0)).abs() < 1e-10);
}

// ---- Degrees + minutes ----

#[test]
fn parse_deg_min() {
    let coord = parse("+4042.77-07400.36/").unwrap();
    match coord.latitude() {
        Latitude::DegMin(v) => {
            assert_eq!(v.degrees(), 40);
            assert!((num(v.minutes()) - 42.77).abs() < 1e-10);
        }
        other => panic!("expected DegMin, got {other:?}"),
    }
    match coord.longitude() {
        Longitude::DegMin(v) => {
            assert_eq!(v.degrees(), 74);
            assert!((num(v.minutes()) - 0.36).abs() < 1e-10);
        }
        other => panic!("expected DegMin, got {other:?}"),
    }
}

// ---- DMS ----

#[test]
fn parse_dms() {
    let coord = parse("+404243-0740002/").unwrap();
    match coord.latitude() {
        Latitude::DMS(v) => {
            assert_eq!(v.degrees(), 40);
            assert_eq!(v.minutes(), 42);
            assert!((num(v.seconds()) - 43.0).abs() < 1e-10);
        }
        other => panic!("expected DMS, got {other:?}"),
    }
}

#[test]
fn parse_dms_decimal_seconds() {
    let coord = parse("+404243.123-0740002.456/").unwrap();
    match coord.latitude() {
        Latitude::DMS(v) => {
            assert!((num(v.seconds()) - 43.123).abs() < 1e-10);
        }
        other => panic!("expected DMS, got {other:?}"),
    }
    match coord.longitude() {
        Longitude::DMS(v) => {
            assert!((num(v.seconds()) - 2.456).abs() < 1e-10);
        }
        other => panic!("expected DMS, got {other:?}"),
    }
}

// ---- Altitude + CRS ----

#[test]
fn parse_with_altitude_and_crs() {
    let coord = parse("+27.5916+086.5640+8848CRSepsg4326/").unwrap();
    let alt = coord.altitude().unwrap();
    assert!((sign_factor(alt.sign()) * num(alt.value()) - 8848.0).abs() < 1e-10);
    assert_eq!(coord.crs().unwrap().as_str(), "epsg4326");
}

#[test]
fn parse_negative_altitude() {
    let coord = parse("+31.5000+035.5000-422CRSwgs84/").unwrap();
    let alt = coord.altitude().unwrap();
    assert!((sign_factor(alt.sign()) * num(alt.value()) - (-422.0)).abs() < 1e-10);
}

#[test]
fn parse_crs_without_altitude() {
    let coord = parse("+40.7128-074.0060CRSepsg4326/").unwrap();
    assert!(coord.altitude().is_none());
    assert_eq!(coord.crs().unwrap().as_str(), "epsg4326");
}

// ---- Boundary values ----

#[test]
fn parse_poles_and_meridians() {
    // North pole, prime meridian
    let coord = parse("+90+000/").unwrap();
    assert!((lat_degrees(coord.latitude()) - 90.0).abs() < 1e-10);
    assert!((lon_degrees(coord.longitude()) - 0.0).abs() < 1e-10);

    // South pole, antimeridian
    let coord = parse("-90-180/").unwrap();
    assert!((lat_degrees(coord.latitude()) - (-90.0)).abs() < 1e-10);
    assert!((lon_degrees(coord.longitude()) - (-180.0)).abs() < 1e-10);

    // +180 longitude
    let coord = parse("+00+180/").unwrap();
    assert!((lon_degrees(coord.longitude()) - 180.0).abs() < 1e-10);
}

// ---- Validation errors ----

#[test]
fn reject_latitude_over_90() {
    let err = parse("+91+000/").unwrap_err();
    assert!(err.is_out_of_range());
    match err {
        ParseError::OutOfRange { component, value } => {
            assert!(component.is_latitude());
            assert!((amount(&value) - 91.0).abs() < 1e-10);
        }
        _ => unreachable!(),
    }
}

#[test]
fn reject_longitude_over_180() {
    let err = parse("+00+181/").unwrap_err();
    assert!(err.is_out_of_range());
    match err {
        ParseError::OutOfRange { component, value } => {
            assert!(component.is_longitude());
            assert!((amount(&value) - 181.0).abs() < 1e-10);
        }
        _ => unreachable!(),
    }
}

#[test]
fn reject_minutes_over_59() {
    let err = parse("+0060+00000/").unwrap_err();
    match err {
        ParseError::OutOfRange { component, value } => {
            assert!(component.is_minutes());
            assert!((amount(&value) - 60.0).abs() < 1e-10);
        }
        _ => panic!("expected OutOfRange, got {err:?}"),
    }
}

#[test]
fn reject_seconds_over_59() {
    let err = parse("+000060-0000060/").unwrap_err();
    match err {
        ParseError::OutOfRange { component, value } => {
            assert!(component.is_seconds());
            assert!((amount(&value) - 60.0).abs() < 1e-10);
        }
        _ => panic!("expected OutOfRange, got {err:?}"),
    }
}

#[test]
fn reject_missing_solidus() {
    let err = parse("+40.7128-074.0060").unwrap_err();
    assert!(err.is_unexpected());
}

// ---- Round-trip ----

#[test]
fn roundtrip_decimal_degrees() {
    let input = "+40.7128-074.0060/";
    let coord = parse(input).unwrap();
    assert_eq!(coord.to_string(), input);
}

#[test]
fn roundtrip_dms_integer() {
    let input = "+404243-0740002/";
    let coord = parse(input).unwrap();
    assert_eq!(coord.to_string(), input);
}

#[test]
fn roundtrip_with_altitude_crs() {
    let input = "+27.5916+086.5640+8848CRSepsg4326/";
    let coord = parse(input).unwrap();
    assert_eq!(coord.to_string(), input);
}

// ---- Mount Everest (classic ISO 6709 example) ----

#[test]
fn parse_everest() {
    let coord = parse("+27.5916+086.5640/").unwrap();
    let (lat, lon) = (lat_degrees(coord.latitude()), lon_degrees(coord.longitude()));
    assert!((lat - 27.5916).abs() < 1e-10);
    assert!((lon - 86.5640).abs() < 1e-10);
}

// ---- Struct accessor coverage ----

#[test]
fn lat_deg_accessors() {
    let coord = parse("+40.7128-074.0060/").unwrap();
    match coord.latitude() {
        Latitude::Deg(v) => {
            assert!(v.sign().is_pos());
            assert!((num(v.degrees()) - 40.7128).abs() < 1e-10);
        }
        other => panic!("expected Deg, got {other:?}"),
    }
}

#[test]
fn lat_deg_min_accessors() {
    let coord = parse("+4042.77-07400.36/").unwrap();
    match coord.latitude() {
        Latitude::DegMin(v) => {
            assert!(v.sign().is_pos());
            assert_eq!(v.degrees(), 40);
            assert!((num(v.minutes()) - 42.77).abs() < 1e-10);
        }
        other => panic!("expected DegMin, got {other:?}"),
    }
}

#[test]
fn lat_dms_accessors() {
    let coord = parse("+404243.5-0740002/").unwrap();
    match coord.latitude() {
        Latitude::DMS(v) => {
            assert!(v.sign().is_pos());
            assert_eq!(v.degrees(), 40);
            assert_eq!(v.minutes(), 42);
            assert!((num(v.seconds()) - 43.5).abs() < 1e-10);
        }
        other => panic!("expected DMS, got {other:?}"),
    }
}

#[test]
fn lon_deg_accessors() {
    let coord = parse("+40.7128-074.0060/").unwrap();
    match coord.longitude() {
        Longitude::Deg(v) => {
            assert!(v.sign().is_neg());
            assert!((num(v.degrees()) - 74.006).abs() < 1e-10);
        }
        other => panic!("expected Deg, got {other:?}"),
    }
}

#[test]
fn lon_deg_min_accessors() {
    let coord = parse("+4042.77-07400.36/").unwrap();
    match coord.longitude() {
        Longitude::DegMin(v) => {
            assert!(v.sign().is_neg());
            assert_eq!(v.degrees(), 74);
            assert!((num(v.minutes()) - 0.36).abs() < 1e-10);
        }
        other => panic!("expected DegMin, got {other:?}"),
    }
}

#[test]
fn lon_dms_accessors() {
    let coord = parse("+404243-0740002.5/").unwrap();
    match coord.longitude() {
        Longitude::DMS(v) => {
            assert!(v.sign().is_neg());
            assert_eq!(v.degrees(), 74);
            assert_eq!(v.minutes(), 0);
            assert!((num(v.seconds()) - 2.5).abs() < 1e-10);
        }
        other => panic!("expected DMS, got {other:?}"),
    }
}

#[test]
fn altitude_accessors() {
    let coord = parse("+27.5916+086.5640+8848.86CRSepsg4326/").unwrap();
    let alt = coord.altitude().unwrap();
    assert!(alt.sign().is_pos());
    assert!((num(alt.value()) - 8848.86).abs() < 1e-10);
    assert!((sign_factor(alt.sign()) * num(alt.value()) - 8848.86).abs() < 1e-10);
}

// ---- Longitude sign/to_decimal_degrees for DegMin and DMS ----

#[test]
fn lon_deg_min_to_decimal() {
    let coord = parse("+4042.77-07400.36/").unwrap();
    let lon = lon_degrees(coord.longitude());
    assert!((lon - (-74.006)).abs() < 1e-3);
    assert!(coord.longitude().sign().is_neg());
}

#[test]
fn lon_dms_to_decimal() {
    let coord = parse("+404243-0740002/").unwrap();
    let lon = lon_degrees(coord.longitude());
    assert!(lon < -73.0 && lon > -75.0);
    assert!(coord.longitude().sign().is_neg());
}

#[test]
fn lat_sign_south() {
    let coord = parse("-40.7128+074.0060/").unwrap();
    assert!(coord.latitude().sign().is_neg());
    assert!((lat_degrees(coord.latitude()) - (-40.7128)).abs() < 1e-10);
}

// ---- Display with decimal fractions (DegMin/DMS branches) ----

#[test]
fn roundtrip_deg_min_decimal() {
    let input = "+4042.7700-07400.3600/";
    let coord = parse(input).unwrap();
    assert_eq!(coord.to_string(), input);
}

#[test]
fn roundtrip_dms_decimal_seconds() {
    let input = "+404243.123000-0740002.456000/";
    let coord = parse(input).unwrap();
    assert_eq!(coord.to_string(), input);
}

#[test]
fn roundtrip_altitude_decimal() {
    let input = "+27.5916+086.5640+8848.86CRSepsg4326/";
    let coord = parse(input).unwrap();
    assert_eq!(coord.to_string(), input);
}

// ---- Error formatting coverage ----

#[test]
fn error_display_messages() {
    // OutOfRange display
    let err = parse("+91+000/").unwrap_err();
    let msg = err.to_string();
    assert!(msg.contains("latitude degrees"));
    assert!(msg.contains("91"));

    // Unexpected display
    let err = parse("+40.7128-074.0060").unwrap_err();
    let msg = err.to_string();
    assert!(msg.contains("unexpected"));

    // Component display for all variants
    assert_eq!(Component::Latitude.to_string(), "latitude degrees");
    assert_eq!(Component::Longitude.to_string(), "longitude degrees");
    assert_eq!(Component::Minutes.to_string(), "minutes");
    assert_eq!(Component::Seconds.to_string(), "seconds");
}

// ---- Invalid input / error path coverage ----

#[test]
fn reject_totally_invalid_input() {
    // Should trigger lexer error or unexpected token
    assert!(parse("hello/").is_err());
}

#[test]
fn reject_empty_input() {
    let err = parse("").unwrap_err();
    assert!(err.is_unexpected());
}

#[test]
fn reject_wrong_token_for_latitude() {
    // 3-digit signed = longitude token in latitude position
    assert!(parse("+000+000/").is_err());
}

#[test]
fn reject_wrong_token_for_longitude() {
    // 2-digit signed in longitude position
    assert!(parse("+40+00/").is_err());
}

#[test]
fn reject_lat_90_with_nonzero_minutes() {
    let err = parse("+9030+00000/").unwrap_err();
    assert!(err.is_out_of_range());
}

#[test]
fn reject_lon_180_with_nonzero_minutes() {
    let err = parse("+00+18030/").unwrap_err();
    assert!(err.is_out_of_range());
}

#[test]
fn reject_lat_90_with_nonzero_dms() {
    let err = parse("+900001+0000000/").unwrap_err();
    assert!(err.is_out_of_range());
}

#[test]
fn reject_lon_180_with_nonzero_dms() {
    let err = parse("+000000+1800001/").unwrap_err();
    assert!(err.is_out_of_range());
}

#[test]
fn reject_garbage_after_longitude() {
    // Should fail in parse_tail
    assert!(parse("+40-074hello/").is_err());
}

#[test]
fn reject_garbage_after_altitude() {
    // Altitude then invalid token (not CRS or solidus)
    assert!(parse("+40-074+100hello/").is_err());
}

#[test]
fn reject_missing_solidus_after_crs() {
    assert!(parse("+40-074CRSfoo").is_err());
}

#[test]
fn reject_missing_solidus_after_alt_crs() {
    assert!(parse("+40-074+100CRSfoo").is_err());
}

// ---- Latitude DegMin to_decimal_degrees ----

#[test]
fn lat_deg_min_to_decimal() {
    let coord = parse("+4042.77-07400.36/").unwrap();
    let lat = lat_degrees(coord.latitude());
    // 40 + 42.77/60 ≈ 40.7128
    assert!((lat - 40.71283333).abs() < 1e-4);
}

#[test]
fn lat_dms_to_decimal() {
    let coord = parse("+404243-0740002/").unwrap();
    let lat = lat_degrees(coord.latitude());
    // 40 + 42/60 + 43/3600 ≈ 40.7119
    assert!((lat - 40.71194).abs() < 1e-4);
}

// ---- Validation error branches for DegMin/DMS ----

#[test]
fn reject_lat_deg_min_over_90() {
    let err = parse("+9100+00000/").unwrap_err();
    match err {
        ParseError::OutOfRange { component, .. } => assert!(component.is_latitude()),
        _ => panic!("expected OutOfRange, got {err:?}"),
    }
}

#[test]
fn reject_lat_dms_degrees_over_90() {
    let err = parse("+910000+0000000/").unwrap_err();
    match err {
        ParseError::OutOfRange { component, .. } => assert!(component.is_latitude()),
        _ => panic!("expected OutOfRange, got {err:?}"),
    }
}

#[test]
fn reject_lat_dms_minutes_over_59() {
    let err = parse("+006000+0000000/").unwrap_err();
    match err {
        ParseError::OutOfRange { component, .. } => assert!(component.is_minutes()),
        _ => panic!("expected OutOfRange, got {err:?}"),
    }
}

#[test]
fn reject_lon_deg_min_over_180() {
    let err = parse("+00+18100/").unwrap_err();
    match err {
        ParseError::OutOfRange { component, .. } => assert!(component.is_longitude()),
        _ => panic!("expected OutOfRange, got {err:?}"),
    }
}

#[test]
fn reject_lon_deg_min_minutes_over_59() {
    let err = parse("+0000+00060/").unwrap_err();
    match err {
        ParseError::OutOfRange { component, .. } => assert!(component.is_minutes()),
        _ => panic!("expected OutOfRange, got {err:?}"),
    }
}

#[test]
fn reject_lon_dms_degrees_over_180() {
    let err = parse("+000000+1810000/").unwrap_err();
    match err {
        ParseError::OutOfRange { component, .. } => assert!(component.is_longitude()),
        _ => panic!("expected OutOfRange, got {err:?}"),
    }
}

#[test]
fn reject_lon_dms_minutes_over_59() {
    let err = parse("+000000+0006000/").unwrap_err();
    match err {
        ParseError::OutOfRange { component, .. } => assert!(component.is_minutes()),
        _ => panic!("expected OutOfRange, got {err:?}"),
    }
}

#[test]
fn reject_lon_dms_seconds_over_59() {
    let err = parse("+000000+0000060/").unwrap_err();
    match err {
        ParseError::OutOfRange { component, .. } => assert!(component.is_seconds()),
        _ => panic!("expected OutOfRange, got {err:?}"),
    }
}

// ---- Display coverage for integer DegMin/DMS longitude ----

#[test]
fn roundtrip_deg_min_integer() {
    let input = "+4042-07400/";
    let coord = parse(input).unwrap();
    assert_eq!(coord.to_string(), input);
}

#[test]
fn roundtrip_dms_integer_lon() {
    let input = "+404243-0740002/";
    let coord = parse(input).unwrap();
    assert_eq!(coord.to_string(), input);
}

// ---- Latitude sign for DegMin/DMS south ----

#[test]
fn lat_deg_min_sign_south() {
    let coord = parse("-4042+07400/").unwrap();
    assert!(coord.latitude().sign().is_neg());
}

#[test]
fn lat_dms_sign_south() {
    let coord = parse("-404243+0740002/").unwrap();
    assert!(coord.latitude().sign().is_neg());
}

// ---- Positive longitude sign/to_decimal for DegMin/DMS ----

#[test]
fn lon_deg_min_sign_positive() {
    let coord = parse("+4042+07400/").unwrap();
    assert!(coord.longitude().sign().is_pos());
    let lon = lon_degrees(coord.longitude());
    assert!(lon > 0.0);
}

#[test]
fn lon_dms_sign_positive() {
    let coord = parse("+404243+0740002/").unwrap();
    assert!(coord.longitude().sign().is_pos());
    let lon = lon_degrees(coord.longitude());
    assert!(lon > 0.0);
}
