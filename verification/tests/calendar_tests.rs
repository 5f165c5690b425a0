use risk_predictor_core::calendar::{
    civil_date_in_range, days_from_civil, days_to_expiry, parse_date_components, DateError, IntErrorKind,
};

/// The date reading written with std's `split` and `parse`, to compare with.
fn reference_parse(date: &str) -> Result<(i32, u32, u32), DateError> {
    fn kind(e: &std::num::ParseIntError) -> IntErrorKind {
        match e.kind() {
            std::num::IntErrorKind::Empty => IntErrorKind::Empty,
            std::num::IntErrorKind::InvalidDigit => IntErrorKind::InvalidDigit,
            std::num::IntErrorKind::PosOverflow => IntErrorKind::PosOverflow,
            std::num::IntErrorKind::NegOverflow => IntErrorKind::NegOverflow,
            _ => panic!("unexpected parse error kind"),
        }
    }
    if date.len() < 10 {
        return Err(DateError::TooShort);
    }
    let mut parts = date[..10].split('-');
    let year = parts.next().unwrap().parse::<i32>().map_err(|e| DateError::InvalidYear(kind(&e)))?;
    let month = parts
        .next()
        .ok_or(DateError::MissingMonth)?
        .parse::<u32>()
        .map_err(|e| DateError::InvalidMonth(kind(&e)))?;
    let day = parts
        .next()
        .ok_or(DateError::MissingDay)?
        .parse::<u32>()
        .map_err(|e| DateError::InvalidDay(kind(&e)))?;
    Ok((year, month, day))
}

#[test]
fn iso_date_reads_its_fields() {
    assert_eq!(parse_date_components("2024-03-15"), Ok((2024, 3, 15)));
    assert_eq!(parse_date_components("2026-06-19T10:30:00Z"), Ok((2026, 6, 19)));
}

#[test]
fn short_date_is_refused() {
    assert_eq!(parse_date_components("2024-3-5"), Err(DateError::TooShort));
    assert_eq!(parse_date_components(""), Err(DateError::TooShort));
}

#[test]
fn date_errors_name_the_field() {
    assert_eq!(parse_date_components("2024/03/15"), Err(DateError::InvalidYear(IntErrorKind::InvalidDigit)));
    assert_eq!(parse_date_components("-001-01-01"), Err(DateError::InvalidYear(IntErrorKind::Empty)));
    assert_eq!(parse_date_components("9999999999"), Err(DateError::InvalidYear(IntErrorKind::PosOverflow)));
    assert_eq!(parse_date_components("1234567890"), Err(DateError::MissingMonth));
    assert_eq!(parse_date_components("2024-03151"), Err(DateError::MissingDay));
    assert_eq!(parse_date_components("2024--1-01"), Err(DateError::InvalidMonth(IntErrorKind::Empty)));
    assert_eq!(parse_date_components("2024-0x-01"), Err(DateError::InvalidMonth(IntErrorKind::InvalidDigit)));
    assert_eq!(parse_date_components("2024-01-+x"), Err(DateError::InvalidDay(IntErrorKind::InvalidDigit)));
    assert_eq!(parse_date_components("2024-01-+"), Err(DateError::TooShort));
    assert_eq!(parse_date_components("2024-01-+ "), Err(DateError::InvalidDay(IntErrorKind::InvalidDigit)));
    assert_eq!(parse_date_components("2024-01--1"), Err(DateError::InvalidDay(IntErrorKind::Empty)));
}

#[test]
fn signs_are_read_like_std() {
    assert_eq!(parse_date_components("+024-01-01"), Ok((24, 1, 1)));
    assert_eq!(parse_date_components("2024-+1-+1"), Ok((2024, 1, 1)));
    assert_eq!(parse_date_components("1-1-1-1-1-"), Ok((1, 1, 1)));
}

#[test]
fn date_reading_matches_std_split_and_parse() {
    let samples = [
        "2024-03-15", "2024-3-15xx", "2024/03/15", "-001-01-01", "+024-01-01", "1234567890", "2024-03151",
        "2024--1-01", "2024-0x-01", "2024-01-+x", "2024-01--1", "-2147483648", "2147483648-1", "0-0-0-0-0-0",
        "--------------", "+-1-1-1-1-1", "2024-13-45", "99-4294967295", "1-4294967296", "abcdefghijkl",
        "2024-01-01extra", "+---------", "0000-00-00",
    ];
    for sample in samples {
        assert_eq!(parse_date_components(sample), reference_parse(sample), "{sample}");
    }
}

#[test]
fn day_numbers_count_from_the_epoch() {
    assert_eq!(days_from_civil(1970, 1, 1), 0);
    assert_eq!(days_from_civil(1969, 12, 31), -1);
    assert_eq!(days_from_civil(2000, 2, 29), 11016);
    assert_eq!(days_from_civil(2000, 3, 1), 11017);
    assert_eq!(days_from_civil(2024, 1, 1), 19723);
    assert_eq!(days_from_civil(2024, 12, 31), 20088);
    assert_eq!(days_from_civil(1, 1, 1), -719162);
}

#[test]
fn year_lengths_follow_the_gregorian_rules() {
    assert_eq!(days_from_civil(2025, 1, 1) - days_from_civil(2024, 1, 1), 366);
    assert_eq!(days_from_civil(2024, 1, 1) - days_from_civil(2023, 1, 1), 365);
    assert_eq!(days_from_civil(1901, 1, 1) - days_from_civil(1900, 1, 1), 365);
    assert_eq!(days_from_civil(2001, 1, 1) - days_from_civil(2000, 1, 1), 366);
    assert_eq!(days_from_civil(2023, 3, 1) - days_from_civil(2023, 2, 1), 28);
    assert_eq!(days_from_civil(2024, 3, 1) - days_from_civil(2024, 2, 1), 29);
}

#[test]
fn expiry_days_are_never_negative() {
    assert_eq!(days_to_expiry("2024-01-01", "2024-12-31"), Ok(365));
    assert_eq!(days_to_expiry("2024-12-31", "2024-01-01"), Ok(0));
    assert_eq!(days_to_expiry("2024-06-01", "2024-06-01"), Ok(0));
    assert_eq!(days_to_expiry("2026-06-19T00:00:00Z", "2026-12-18"), Ok(182));
}

#[test]
fn expiry_errors_come_from_the_first_bad_date() {
    assert_eq!(days_to_expiry("bad", "2024-01-01"), Err(DateError::TooShort));
    assert_eq!(days_to_expiry("2024-01-01", "2024/01/01"), Err(DateError::InvalidYear(IntErrorKind::InvalidDigit)));
    assert_eq!(days_to_expiry("2024-01", "2024/01/01"), Err(DateError::TooShort));
}

#[test]
fn day_count_range_is_checked() {
    assert!(civil_date_in_range(2024, 1, 1));
    assert!(civil_date_in_range(-5000, 14, 99));
    assert!(!civil_date_in_range(2024, 3_000_000_000, 1));
    assert!(!civil_date_in_range(2024, 1, 3_000_000_000));
    assert!(!civil_date_in_range(i32::MIN, 1, 1));
    assert!(!civil_date_in_range(2024, 20_000_000, 1));
    assert!(civil_date_in_range(2024, 10_000_000, 1));
}

#[test]
fn every_readable_date_has_a_day_count() {
    assert_eq!(days_to_expiry("1970-01-01", "999999-1-1"), Ok(days_from_civil(999_999, 1, 1)));
    assert_eq!(days_to_expiry("1970-01-01", "1-999999-1"), Ok(days_from_civil(1, 999_999, 1)));
    assert_eq!(days_to_expiry("0-1-999999", "1-999999-1"), Ok(days_from_civil(1, 999_999, 1) - days_from_civil(0, 1, 999_999)));
    assert!(civil_date_in_range(999_999, 999_999, 999_999));
}
