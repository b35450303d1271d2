use kymenu::color::{Color, ParseColorError};

#[test]
fn parses_6_digit_hex_without_hash() {
    let c = Color::from_str("ff0000").unwrap();
    assert_eq!(c.r, 0xff);
    assert_eq!(c.g, 0x00);
    assert_eq!(c.b, 0x00);
    assert_eq!(c.a, 0xff);
}

#[test]
fn parses_6_digit_hex_with_hash() {
    let c = Color::from_str("#00ff00").unwrap();
    assert_eq!(c.r, 0x00);
    assert_eq!(c.g, 0xff);
    assert_eq!(c.b, 0x00);
    assert_eq!(c.a, 0xff);
}

#[test]
fn parses_8_digit_hex_with_alpha() {
    let c = Color::from_str("#11223344").unwrap();
    assert_eq!(c.r, 0x11);
    assert_eq!(c.g, 0x22);
    assert_eq!(c.b, 0x33);
    assert_eq!(c.a, 0x44);
}

#[test]
fn hex_roundtrip_to_hex() {
    let c = Color::rgb(10, 20, 30);
    let hex = c.to_hex();
    let parsed = Color::from_str(&hex).unwrap();

    assert_eq!(parsed.r, 10);
    assert_eq!(parsed.g, 20);
    assert_eq!(parsed.b, 30);
    assert_eq!(parsed.a, 255);
}

#[test]
fn display_matches_to_hex() {
    let c = Color::rgba(1, 2, 3, 4);
    assert_eq!(c.to_string(), c.to_hex());
}

#[test]
fn invalid_hex_length() {
    let err = Color::from_str("#123").unwrap_err();

    match err {
        ParseColorError::WrongHexLength(len) => assert_eq!(len, 3),
        _ => panic!("expected WrongHexLength"),
    }
}

#[test]
fn invalid_hex_characters() {
    let err = Color::from_str("zzzzzz").unwrap_err();

    match err {
        ParseColorError::InvalidRedComponent(_) => {}
        _ => panic!("expected InvalidRedComponent"),
    }
}

#[test]
fn get_bgra_order_is_correct() {
    let c = Color::rgba(1, 2, 3, 4);
    assert_eq!(c.get_bgra(), [3, 2, 1, 4]);
}

#[test]
fn whitespace_is_trimmed() {
    let c = Color::from_str("   #ff00ff   ").unwrap();
    assert_eq!(c.r, 0xff);
    assert_eq!(c.g, 0x00);
    assert_eq!(c.b, 0xff);
    assert_eq!(c.a, 0xff);
}

#[test]
fn to_hex_is_upper_case_with_alpha() {
    assert_eq!(Color::rgba(0xab, 0x0c, 0xd0, 0x0e).to_hex(), "#AB0CD00E");
    assert_eq!(Color::rgb(0, 0, 0).to_hex(), "#000000FF");
}

#[test]
fn every_channel_value_survives_a_roundtrip() {
    for v in 0..=255u8 {
        let c = Color::rgba(v, 255 - v, v / 2, v.wrapping_mul(7));
        let back = Color::from_str(&c.to_hex()).unwrap();
        assert_eq!((back.r, back.g, back.b, back.a), (c.r, c.g, c.b, c.a));
    }
}

#[test]
fn hash_without_digits_reports_length() {
    match Color::hex("#").unwrap_err() {
        ParseColorError::WrongHexLength(len) => assert_eq!(len, 0),
        _ => panic!("expected WrongHexLength"),
    }
}

#[test]
fn length_counts_bytes() {
    // Three two-byte characters make six bytes.
    match Color::try_hex("ééé") {
        Some(Err(ParseColorError::InvalidRedComponent(_))) => {}
        other => panic!("expected InvalidRedComponent, got {:?}", other),
    }
}

#[test]
fn cut_inside_a_character_is_refused() {
    // "a" then a three-byte character: the cut at byte 2 falls inside it.
    assert!(Color::try_hex("a€bb").is_none());
}

#[test]
fn invalid_green_blue_and_alpha() {
    assert!(matches!(
        Color::hex("00zz00"),
        Err(ParseColorError::InvalidGreenComponent(_))
    ));
    assert!(matches!(
        Color::hex("0000zz"),
        Err(ParseColorError::InvalidBlueComponent(_))
    ));
    assert!(matches!(
        Color::hex("000000zz"),
        Err(ParseColorError::InvalidAlphaComponent(_))
    ));
}

#[test]
fn plus_sign_is_accepted_as_by_from_str_radix() {
    let c = Color::hex("+f+f+f").unwrap();
    assert_eq!((c.r, c.g, c.b, c.a), (15, 15, 15, 255));
}

#[test]
fn hash_then_space_is_trimmed_again() {
    let c = Color::hex(" #  0a0b0c ").unwrap();
    assert_eq!((c.r, c.g, c.b, c.a), (10, 11, 12, 255));
}

#[test]
fn lower_and_upper_case_digits() {
    let c = Color::hex("aBcDeF").unwrap();
    assert_eq!((c.r, c.g, c.b), (0xab, 0xcd, 0xef));
}

#[test]
fn blend_over_mixes_channels_and_keeps_alpha() {
    let c = Color::rgb(255, 0, 100);
    // BGRA background.
    let bg = [10u8, 200, 0, 77];
    assert_eq!(c.blend_over(bg, 255), [100, 0, 255, 77]);
    assert_eq!(c.blend_over(bg, 0), [10, 200, 0, 77]);
    // b: (100*128 + 10*127)/255 = 55, g: (0 + 200*127)/255 = 99, r: (255*128)/255 = 128
    assert_eq!(c.blend_over(bg, 128), [55, 99, 128, 77]);
}

#[test]
fn blend_channel_rounds_down() {
    assert_eq!(kymenu::color::blend_channel(255, 0, 1), 1);
    assert_eq!(kymenu::color::blend_channel(1, 0, 254), 0);
    assert_eq!(kymenu::color::blend_channel(200, 100, 51), 120);
}

#[test]
fn hex_and_from_str_agree() {
    for text in ["#ff8800", " 11223344 ", "#12345", "zz0000", "00zz00", "0000zz", "000000zz", ""] {
        let a = Color::hex(text);
        let b = Color::from_str(text);
        match (a, b) {
            (Ok(x), Ok(y)) => assert_eq!((x.r, x.g, x.b, x.a), (y.r, y.g, y.b, y.a)),
            (Err(ParseColorError::WrongHexLength(m)), Err(ParseColorError::WrongHexLength(n))) => {
                assert_eq!(m, n)
            }
            (Err(ParseColorError::InvalidRedComponent(e)), Err(ParseColorError::InvalidRedComponent(f))) => {
                assert_eq!(e, f)
            }
            (Err(ParseColorError::InvalidGreenComponent(e)), Err(ParseColorError::InvalidGreenComponent(f))) => {
                assert_eq!(e, f)
            }
            (Err(ParseColorError::InvalidBlueComponent(e)), Err(ParseColorError::InvalidBlueComponent(f))) => {
                assert_eq!(e, f)
            }
            (Err(ParseColorError::InvalidAlphaComponent(e)), Err(ParseColorError::InvalidAlphaComponent(f))) => {
                assert_eq!(e, f)
            }
            (x, y) => panic!("{text:?}: {x:?} vs {y:?}"),
        }
    }
}
