use stallhunt::cli::{
    output_format, parse_count, parse_decimal_milliseconds, parse_duration, redaction_for,
    HuntOptions, OutputFormat, TextStyle, MAX_HUNT_DURATION_MS, MIN_HUNT_DURATION_MS,
};
use stallhunt::record::Redaction;

#[test]
fn hunt_accepts_inclusive_duration_boundaries() {
    assert_eq!(parse_duration("100ms"), Ok(MIN_HUNT_DURATION_MS));
    assert_eq!(parse_duration("5m"), Ok(MAX_HUNT_DURATION_MS));
    assert_eq!(parse_duration("300s"), Ok(MAX_HUNT_DURATION_MS));
    assert_eq!(parse_duration("0.1s"), Ok(MIN_HUNT_DURATION_MS));
}

#[test]
fn hunt_rejects_out_of_range_durations() {
    for value in ["99ms", "0s", "301s", "6m", "300001ms"] {
        let error = parse_duration(value).unwrap_err();
        assert_eq!(
            error.message(),
            format!("duration '{value}' is outside the supported range (100ms to 5m)")
        );
    }
}

#[test]
fn hunt_rejects_malformed_or_sub_millisecond_durations() {
    for value in ["", "10", "ms", "1.ms", ".5s", "1..5s", "1.5.0s", "-1s", "abc", "1.0001s", "0.0005s", "1h", "+1s"] {
        let error = parse_duration(value).unwrap_err();
        assert_eq!(
            error.message(),
            format!("invalid duration '{value}'; use a value such as 500ms, 2s, 1.5s, or 1m")
        );
    }
}

#[test]
fn durations_accept_every_unit_and_exact_fractions() {
    assert_eq!(parse_duration("500ms"), Ok(500));
    assert_eq!(parse_duration("2s"), Ok(2_000));
    assert_eq!(parse_duration("1.5s"), Ok(1_500));
    assert_eq!(parse_duration("1m"), Ok(60_000));
    assert_eq!(parse_duration("0.25m"), Ok(15_000));
    assert_eq!(parse_decimal_milliseconds("1.500", 1_000), Some(1_500));
    assert_eq!(parse_decimal_milliseconds("18446744073709551615", 1), Some(u64::MAX));
    assert_eq!(parse_decimal_milliseconds("18446744073709551615", 2), None);
    assert_eq!(parse_decimal_milliseconds("1.0000000000000000001", 1), None);
}

#[test]
fn counts_are_positive_plain_integers() {
    assert_eq!(parse_count("1"), Ok(1));
    assert_eq!(parse_count("30"), Ok(30));
    assert_eq!(parse_count("4294967295"), Ok(u32::MAX));
    assert_eq!(
        parse_count("0").unwrap_err().message(),
        "option '--count' must be a positive integer"
    );
    for value in ["", "01", "x", "-1", "+1", "4294967296"] {
        assert_eq!(
            parse_count(value).unwrap_err().message(),
            format!("invalid count '{value}'; use a positive integer such as 1 or 30")
        );
    }
}

#[test]
fn option_defaults_and_flags() {
    assert_eq!(output_format(true), OutputFormat::Json);
    assert_eq!(output_format(false), OutputFormat::Text);
    assert_eq!(redaction_for(true), Redaction::Identifiers);
    assert_eq!(redaction_for(false), Redaction::Unredacted);
    let options = HuntOptions::new(10_000, OutputFormat::Json);
    assert_eq!(options.duration_ms, 10_000);
    assert_eq!(options.style, TextStyle::default());
}
