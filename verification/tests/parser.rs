use vidcrop::parser::parse_time;
use vidcrop::parser::validate_range;
use vidcrop::parser::ParseError;
use vidcrop::parser::RangeError;
use vidcrop::parser::SegmentField;
use vidcrop::Duration;

#[test]
fn parse_colon_two_segments() {
    assert_eq!(parse_time("1:30").unwrap(), Duration::from_secs(90));
}

#[test]
fn parse_colon_three_segments() {
    assert_eq!(parse_time("01:02:03").unwrap(), Duration::from_secs(3723));
}

#[test]
fn parse_colon_zero() {
    assert_eq!(parse_time("0:00").unwrap(), Duration::from_secs(0));
}

#[test]
fn parse_colon_large_hours() {
    assert_eq!(parse_time("100:00:00").unwrap(), Duration::from_secs(360000));
}

#[test]
fn parse_colon_unnormalized_minutes() {
    assert_eq!(parse_time("90:00").unwrap(), Duration::from_secs(5400));
}

#[test]
fn parse_compact_seconds() {
    assert_eq!(parse_time("90s").unwrap(), Duration::from_secs(90));
}

#[test]
fn parse_compact_minutes_seconds() {
    assert_eq!(parse_time("1m30s").unwrap(), Duration::from_secs(90));
}

#[test]
fn parse_compact_hours_minutes_seconds() {
    assert_eq!(parse_time("1h2m3s").unwrap(), Duration::from_secs(3723));
}

#[test]
fn parse_compact_subseconds() {
    let d = parse_time("4.2s").unwrap();
    assert_eq!(d.secs, 4);
    assert_eq!(d.nanos, 200_000_000);
}

#[test]
fn parse_rejects_plain_word() {
    match parse_time("abc") {
        Err(ParseError::InvalidFormat { input, .. }) => assert_eq!(input, "abc"),
        other => panic!("unexpected result: {:?}", other),
    }
}

#[test]
fn parse_rejects_four_segments() {
    match parse_time("1:2:3:4") {
        Err(ParseError::InvalidFormat { input, .. }) => assert_eq!(input, "1:2:3:4"),
        other => panic!("unexpected result: {:?}", other),
    }
}

#[test]
fn parse_rejects_bad_seconds_segment() {
    match parse_time("12:xy") {
        Err(ParseError::InvalidSegment { field: SegmentField::Seconds, text }) => {
            assert_eq!(text, "xy")
        }
        other => panic!("unexpected result: {:?}", other),
    }
}

#[test]
fn parse_rejects_bad_minutes_segment() {
    match parse_time("x:10") {
        Err(ParseError::InvalidSegment { field: SegmentField::Minutes, text }) => {
            assert_eq!(text, "x")
        }
        other => panic!("unexpected result: {:?}", other),
    }
}

#[test]
fn parse_rejects_bad_hours_segment() {
    match parse_time("x:2:3") {
        Err(ParseError::InvalidSegment { field: SegmentField::Hours, text }) => {
            assert_eq!(text, "x")
        }
        other => panic!("unexpected result: {:?}", other),
    }
}

#[test]
fn parse_rejects_empty_minutes_segment() {
    match parse_time(":30") {
        Err(ParseError::InvalidSegment { field: SegmentField::Minutes, text }) => {
            assert_eq!(text, "")
        }
        other => panic!("unexpected result: {:?}", other),
    }
}

#[test]
fn parse_rejects_bare_number() {
    assert!(matches!(
        parse_time("90"),
        Err(ParseError::InvalidFormat { .. })
    ));
}

#[test]
fn parse_rejects_negative_segment() {
    assert!(matches!(
        parse_time("-1:30"),
        Err(ParseError::InvalidSegment {
            field: SegmentField::Minutes,
            ..
        })
    ));
}

#[test]
fn parse_overflow_on_composition() {
    assert!(matches!(
        parse_time("18446744073709551615:0"),
        Err(ParseError::Overflow)
    ));
}

#[test]
fn parse_rejects_oversized_segment() {
    assert!(matches!(
        parse_time("99999999999999999999:00"),
        Err(ParseError::InvalidSegment {
            field: SegmentField::Minutes,
            ..
        })
    ));
}

#[test]
fn parse_compact_at_range_edge_rejected() {
    // Composes to one nanosecond past the largest representable span.
    assert!(matches!(
        parse_time("18446744073709551615s 1000000000ns"),
        Err(ParseError::Overflow)
    ));
    assert!(matches!(
        parse_time("18446744073709551615s1000000000ns"),
        Err(ParseError::Overflow)
    ));
}

#[test]
fn parse_compact_split_digits_rejected() {
    // One number read across whitespace composes to the edge of the
    // representable range, with a nanosecond carry past it.
    assert!(matches!(
        parse_time("1844674407370955161 5s 1000000000ns"),
        Err(ParseError::Overflow)
    ));
}

#[test]
fn parse_compact_merges_digits_across_whitespace() {
    assert_eq!(parse_time("12 34s").unwrap(), Duration::from_secs(1234));
}

#[test]
fn parse_compact_large_minute_count() {
    assert_eq!(
        parse_time("8000000000000m").unwrap(),
        Duration::from_secs(480_000_000_000_000)
    );
}

#[test]
fn parse_compact_huge_years_rejected() {
    assert!(matches!(
        parse_time("90000000000000y"),
        Err(ParseError::Overflow)
    ));
}

#[test]
fn parse_compact_large_but_valid() {
    assert_eq!(
        parse_time("584542046091s").unwrap(),
        Duration::from_secs(584542046091)
    );
    assert_eq!(
        parse_time("5000years").unwrap(),
        Duration::from_secs(5000 * 31_557_600)
    );
}

#[test]
fn parse_compact_spaced_pairs() {
    assert_eq!(parse_time("2h 37min").unwrap(), Duration::from_secs(9420));
}

#[test]
fn validate_equal_endpoints_fails() {
    let s = Duration::from_secs(10);
    let e = Duration::from_secs(10);
    assert_eq!(
        validate_range(s, e),
        Err(RangeError::NonPositiveRange { start: s, end: e })
    );
}

#[test]
fn validate_reversed_endpoints_fails() {
    let s = Duration::from_secs(20);
    let e = Duration::from_secs(10);
    assert_eq!(
        validate_range(s, e),
        Err(RangeError::NonPositiveRange { start: s, end: e })
    );
}

#[test]
fn validate_proper_range_succeeds() {
    assert_eq!(
        validate_range(Duration::from_secs(10), Duration::from_secs(20)),
        Ok(())
    );
}

#[test]
fn validate_subsecond_difference() {
    let s = Duration { secs: 10, nanos: 1 };
    let e = Duration { secs: 10, nanos: 2 };
    assert_eq!(validate_range(s, e), Ok(()));
    assert!(validate_range(e, s).is_err());
    assert!(validate_range(s, s).is_err());
}
