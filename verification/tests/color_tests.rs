use snowflake::color::{Color, ParseColorError};

#[test]
fn hex_round_trip_six_digits() {
    let c = Color::from_hex_str("1a2B3c").unwrap();
    assert_eq!(c.r, 0x1a);
    assert_eq!(c.g, 0x2b);
    assert_eq!(c.b, 0x3c);
    assert_eq!(c.a, 255);
    assert_eq!(c.into_hex_str(), "1a2b3cff");
}

#[test]
fn hex_round_trip_eight_digits() {
    let c = Color::from_hex_str("DEADBEEF").unwrap();
    assert_eq!(c.r, 0xde);
    assert_eq!(c.g, 0xad);
    assert_eq!(c.b, 0xbe);
    assert_eq!(c.a, 0xef);
    assert_eq!(c.into_hex_str(), "deadbeef");
}

#[test]
fn hex_round_trip_is_canonical() {
    for s in ["000000", "ffffff", "00ff00aa", "0F0f0F"] {
        let c = Color::from_hex_str(s).unwrap();
        let canon = c.into_hex_str();
        let c2 = Color::from_hex_str(&canon).unwrap();
        assert_eq!(c, c2);
        assert_eq!(c2.into_hex_str(), canon);
        assert_eq!(canon.len(), 8);
    }
}

#[test]
fn hex_length_error() {
    match Color::from_hex_str("abcde") {
        Err(ParseColorError::LengthError(n)) => assert_eq!(n, 5),
        other => panic!("expected a length error, got {:?}", other),
    }
    assert!(Color::from_hex_str("").is_err());
    assert!(Color::from_hex_str("123456789").is_err());
}

#[test]
fn hex_digit_error() {
    match Color::from_hex_str("12345g") {
        Err(ParseColorError::ParseIntError) => {}
        other => panic!("expected a digit error, got {:?}", other),
    }
    assert!(Color::from_hex_str("zzzzzz").is_err());
}

#[test]
fn random_color_encodes() {
    let c = Color::random();
    let s = c.into_hex_str();
    assert_eq!(s.len(), 8);
    assert_eq!(Color::from_hex_str(&s).unwrap(), c);
}
