use waybright::devices::{percent_to_value, BrightnessValue};
use waybright::text::{parse_trimmed_u32, IntError};
use waybright::level::{apply_percent_change, parse_percent_change, LevelError, PercentChange};

#[test]
fn parses_absolute_percentages() {
    assert_eq!(parse_percent_change("50%"), Ok(PercentChange::Absolute(50)));
    assert_eq!(parse_percent_change("0%"), Ok(PercentChange::Absolute(0)));
    assert_eq!(parse_percent_change("100%"), Ok(PercentChange::Absolute(100)));
}

#[test]
fn parses_deltas() {
    assert_eq!(parse_percent_change("+5%"), Ok(PercentChange::Delta(5)));
    assert_eq!(parse_percent_change("-5%"), Ok(PercentChange::Delta(-5)));
    assert_eq!(parse_percent_change("-100%"), Ok(PercentChange::Delta(-100)));
    assert_eq!(parse_percent_change("+100%"), Ok(PercentChange::Delta(100)));
}

#[test]
fn signed_delta_bodies_follow_integer_parsing() {
    // The text after the leading sign is read as an `i8`, which may carry a sign of its own.
    assert_eq!(parse_percent_change("+-5%"), Ok(PercentChange::Delta(-5)));
    assert_eq!(parse_percent_change("--5%"), Ok(PercentChange::Delta(5)));
    assert_eq!(parse_percent_change("-+5%"), Ok(PercentChange::Delta(-5)));
    assert_eq!(parse_percent_change("+-128%"), Ok(PercentChange::Delta(-128)));
}

#[test]
fn parses_factors() {
    assert_eq!(parse_percent_change("*120%"), Ok(PercentChange::Multiply(120)));
    assert_eq!(parse_percent_change("/120%"), Ok(PercentChange::Divide(120)));
    assert_eq!(parse_percent_change("*65535%"), Ok(PercentChange::Multiply(65535)));
}

#[test]
fn refuses_values_without_percent_sign() {
    assert_eq!(parse_percent_change("50"), Err(LevelError::MissingPercentSign));
    assert_eq!(parse_percent_change(""), Err(LevelError::MissingPercentSign));
    assert_eq!(parse_percent_change("+5"), Err(LevelError::MissingPercentSign));
}

#[test]
fn refuses_invalid_numbers() {
    assert_eq!(parse_percent_change("abc%"), Err(LevelError::InvalidNumber(IntError::InvalidDigit)));
    assert_eq!(parse_percent_change("%"), Err(LevelError::InvalidNumber(IntError::Empty)));
    assert_eq!(parse_percent_change(" 50%"), Err(LevelError::InvalidNumber(IntError::InvalidDigit)));
    assert_eq!(parse_percent_change("256%"), Err(LevelError::InvalidNumber(IntError::PosOverflow)));
    assert_eq!(parse_percent_change("+128%"), Err(LevelError::InvalidNumber(IntError::PosOverflow)));
    assert_eq!(parse_percent_change("*65536%"), Err(LevelError::InvalidNumber(IntError::PosOverflow)));
    assert_eq!(parse_percent_change("+%"), Err(LevelError::InvalidNumber(IntError::Empty)));
    assert_eq!(parse_percent_change("-%"), Err(LevelError::InvalidNumber(IntError::Empty)));
    assert_eq!(parse_percent_change("+-%"), Err(LevelError::InvalidNumber(IntError::InvalidDigit)));
    assert_eq!(parse_percent_change("+-129%"), Err(LevelError::InvalidNumber(IntError::NegOverflow)));
    assert_eq!(parse_percent_change("-5a%"), Err(LevelError::InvalidNumber(IntError::InvalidDigit)));
    assert_eq!(parse_percent_change("999a%"), Err(LevelError::InvalidNumber(IntError::PosOverflow)));
    assert_eq!(parse_percent_change("-50%0%"), Err(LevelError::InvalidNumber(IntError::InvalidDigit)));
}

#[test]
fn refuses_out_of_range_values() {
    assert_eq!(parse_percent_change("101%"), Err(LevelError::PercentOutOfRange));
    assert_eq!(parse_percent_change("255%"), Err(LevelError::PercentOutOfRange));
    assert_eq!(parse_percent_change("+101%"), Err(LevelError::DeltaOutOfRange));
    assert_eq!(parse_percent_change("-127%"), Err(LevelError::DeltaOutOfRange));
    assert_eq!(parse_percent_change("*0%"), Err(LevelError::ZeroFactor));
    assert_eq!(parse_percent_change("/0%"), Err(LevelError::ZeroFactor));
}

#[test]
fn level_error_messages() {
    assert_eq!(LevelError::MissingPercentSign.message(), "brightness value must end with %");
    assert_eq!(
        LevelError::PercentOutOfRange.message(),
        "brightness percent must be between 0 and 100"
    );
    assert_eq!(
        LevelError::DeltaOutOfRange.message(),
        "brightness delta must be between -100 and 100"
    );
    assert_eq!(LevelError::ZeroFactor.message(), "brightness factor must be greater than 0%");
    assert_eq!(
        LevelError::InvalidNumber(IntError::InvalidDigit).message(),
        "invalid digit found in string"
    );
    assert_eq!(
        LevelError::InvalidNumber(IntError::Empty).message(),
        "cannot parse integer from empty string"
    );
    assert_eq!(
        LevelError::InvalidNumber(IntError::PosOverflow).message(),
        "number too large to fit in target type"
    );
    assert_eq!(
        LevelError::InvalidNumber(IntError::NegOverflow).message(),
        "number too small to fit in target type"
    );
}

#[test]
fn only_absolute_changes_need_no_current_value() {
    assert!(!PercentChange::Absolute(10).needs_current());
    assert!(PercentChange::Delta(1).needs_current());
    assert!(PercentChange::Multiply(110).needs_current());
    assert!(PercentChange::Divide(110).needs_current());
}

#[test]
fn applies_absolute_and_delta_changes() {
    assert_eq!(apply_percent_change(None, PercentChange::Absolute(30)), 30);
    assert_eq!(apply_percent_change(Some(80), PercentChange::Absolute(30)), 30);
    assert_eq!(apply_percent_change(Some(50), PercentChange::Delta(10)), 60);
    assert_eq!(apply_percent_change(Some(95), PercentChange::Delta(10)), 100);
    assert_eq!(apply_percent_change(Some(5), PercentChange::Delta(-10)), 0);
    assert_eq!(apply_percent_change(Some(200), PercentChange::Delta(-10)), 100);
}

#[test]
fn applies_multiplication_with_rounding() {
    assert_eq!(apply_percent_change(Some(50), PercentChange::Multiply(120)), 60);
    assert_eq!(apply_percent_change(Some(50), PercentChange::Multiply(50)), 25);
    assert_eq!(apply_percent_change(Some(90), PercentChange::Multiply(200)), 100);
    assert_eq!(apply_percent_change(Some(100), PercentChange::Multiply(120)), 100);
    assert_eq!(apply_percent_change(Some(7), PercentChange::Multiply(100)), 7);
}

#[test]
fn multiplication_always_moves_off_a_rounded_value() {
    assert_eq!(apply_percent_change(Some(1), PercentChange::Multiply(120)), 2);
    assert_eq!(apply_percent_change(Some(0), PercentChange::Multiply(120)), 1);
    assert_eq!(apply_percent_change(Some(1), PercentChange::Multiply(80)), 0);
    assert_eq!(apply_percent_change(Some(0), PercentChange::Multiply(80)), 0);
}

#[test]
fn applies_division_with_rounding() {
    assert_eq!(apply_percent_change(Some(50), PercentChange::Divide(200)), 25);
    assert_eq!(apply_percent_change(Some(60), PercentChange::Divide(50)), 100);
    assert_eq!(apply_percent_change(Some(1), PercentChange::Divide(120)), 0);
    assert_eq!(apply_percent_change(Some(0), PercentChange::Divide(50)), 1);
    assert_eq!(apply_percent_change(Some(100), PercentChange::Divide(50)), 100);
    assert_eq!(apply_percent_change(Some(33), PercentChange::Divide(100)), 33);
}

#[test]
fn relative_changes_stay_within_percent_range() {
    for current in 0..=100u32 {
        for change in [
            PercentChange::Delta(-100),
            PercentChange::Delta(100),
            PercentChange::Multiply(1),
            PercentChange::Multiply(1000),
            PercentChange::Divide(1),
            PercentChange::Divide(1000),
        ] {
            assert!(apply_percent_change(Some(current), change) <= 100);
        }
    }
}

#[test]
fn parsing_a_percentage_gives_it_back() {
    for p in 0..=100u8 {
        let text = format!("{p}%");
        assert_eq!(parse_percent_change(&text), Ok(PercentChange::Absolute(p)));
    }
}

#[test]
fn brightness_value_percentages() {
    assert_eq!(BrightnessValue::new(50, 200).percent(), 25);
    assert_eq!(BrightnessValue::new(255, 255).percent(), 100);
    assert_eq!(BrightnessValue::new(1, 3).percent(), 33);
    assert_eq!(BrightnessValue::new(10, 0).percent(), 0);
}

#[test]
fn percent_to_value_rounds_up() {
    assert_eq!(percent_to_value(50, 255), 128);
    assert_eq!(percent_to_value(100, 255), 255);
    assert_eq!(percent_to_value(0, 255), 0);
    assert_eq!(percent_to_value(1, 7), 1);
    assert_eq!(percent_to_value(30, 1000), 300);
}

#[test]
fn percent_roundtrips_through_a_raw_value() {
    for max in [100u32, 255, 937, 4096, 120000] {
        for p in 0..=100u8 {
            let value = percent_to_value(p, max);
            assert!(value <= max);
            assert_eq!(BrightnessValue::new(value, max).percent(), u32::from(p));
        }
    }
    for p in 0..=100u8 {
        let value = percent_to_value(p, 10);
        assert!(BrightnessValue::new(value, 10).percent() >= u32::from(p));
    }
}

#[test]
fn reads_numbers_of_sysfs_attributes() {
    assert_eq!(parse_trimmed_u32("120000\n"), Ok(120000));
    assert_eq!(parse_trimmed_u32("  +7 "), Ok(7));
    assert_eq!(parse_trimmed_u32("4294967295"), Ok(u32::MAX));
    assert_eq!(parse_trimmed_u32("4294967296"), Err(IntError::PosOverflow));
    assert_eq!(parse_trimmed_u32("-1"), Err(IntError::InvalidDigit));
    assert_eq!(parse_trimmed_u32(""), Err(IntError::Empty));
    assert_eq!(parse_trimmed_u32("1 2"), Err(IntError::InvalidDigit));
}

#[test]
fn parsing_deltas_and_factors_gives_them_back() {
    for d in 0..=100i8 {
        assert_eq!(parse_percent_change(&format!("+{d}%")), Ok(PercentChange::Delta(d)));
        assert_eq!(parse_percent_change(&format!("-{d}%")), Ok(PercentChange::Delta(-d)));
    }
    for f in [1u16, 2, 50, 99, 100, 101, 120, 1000, 65535] {
        assert_eq!(parse_percent_change(&format!("*{f}%")), Ok(PercentChange::Multiply(f)));
        assert_eq!(parse_percent_change(&format!("/{f}%")), Ok(PercentChange::Divide(f)));
    }
}
