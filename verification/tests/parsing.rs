use std::str::FromStr;

use pixelator::{BackgroundColour, Mode};

#[test]
fn mode_parses_names_and_shorthands() {
    assert!(matches!(Mode::from_str("dark"), Ok(Mode::Dark)));
    assert!(matches!(Mode::from_str("d"), Ok(Mode::Dark)));
    assert!(matches!(Mode::from_str("light"), Ok(Mode::Light)));
    assert!(matches!(Mode::from_str("l"), Ok(Mode::Light)));
    assert!(matches!(Mode::from_str("random"), Ok(Mode::Random)));
    assert!(matches!(Mode::from_str("r"), Ok(Mode::Random)));
}

#[test]
fn mode_parsing_ignores_case_and_spacing() {
    assert!(matches!(Mode::from_str("  DARK "), Ok(Mode::Dark)));
    assert!(matches!(Mode::from_str("Li ght"), Ok(Mode::Light)));
    assert!(matches!(Mode::from_str("\tRanDom\n"), Ok(Mode::Random)));
}

#[test]
fn mode_rejects_everything_else() {
    assert!(Mode::from_str("darkish").is_err());
    assert!(Mode::from_str("").is_err());
    assert!(Mode::from_str("42").is_err());
}

#[test]
fn mode_names_round_trip() {
    assert_eq!(Mode::Dark.to_string(), "dark");
    assert_eq!(Mode::Light.to_string(), "light");
    assert_eq!(Mode::Random.to_string(), "random");
    assert!(matches!(Mode::from_str(&Mode::Dark.to_string()), Ok(Mode::Dark)));
    assert!(matches!(Mode::from_str(&Mode::Light.to_string()), Ok(Mode::Light)));
    assert!(matches!(Mode::from_str(&Mode::Random.to_string()), Ok(Mode::Random)));
}

#[test]
fn background_parses_keywords() {
    assert!(matches!(BackgroundColour::from_str("black"), Ok(BackgroundColour::Black)));
    assert!(matches!(BackgroundColour::from_str(" B "), Ok(BackgroundColour::Black)));
    assert!(matches!(BackgroundColour::from_str("White"), Ok(BackgroundColour::White)));
    assert!(matches!(BackgroundColour::from_str("w"), Ok(BackgroundColour::White)));
}

#[test]
fn background_parses_hex_codes() {
    assert_eq!(
        BackgroundColour::from_str("#ff0000").unwrap(),
        BackgroundColour::Custom((255, 0, 0))
    );
    assert_eq!(
        BackgroundColour::from_str("#0000FF").unwrap(),
        BackgroundColour::Custom((0, 0, 255))
    );
    assert_eq!(
        BackgroundColour::from_str("123456").unwrap(),
        BackgroundColour::Custom((0x12, 0x34, 0x56))
    );
    assert_eq!(
        BackgroundColour::from_str("#f3f").unwrap(),
        BackgroundColour::Custom((255, 51, 255))
    );
}

#[test]
fn background_reports_bad_codes() {
    assert_eq!(
        BackgroundColour::from_str("").unwrap_err(),
        "hexcode is empty.".to_string()
    );
    assert_eq!(
        BackgroundColour::from_str("#zzz").unwrap_err(),
        "Invalid hexadecimal color code representation.".to_string()
    );
    assert!(BackgroundColour::from_str("#ab").is_err());
    assert!(BackgroundColour::from_str("#abcd").is_err());
    assert!(BackgroundColour::from_str("#abcdef00ff").is_err());
}

#[test]
fn background_default_is_black() {
    assert!(matches!(BackgroundColour::default(), BackgroundColour::Black));
}
