use webvtt::duration::Duration;
use webvtt::vtt::{parse_duration, Error};

#[test]
fn seconds() {
    let parsed = parse_duration("0:5").unwrap();
    let expected = Duration::new(5, 0);
    assert_eq!(parsed, expected);
}

#[test]
fn milliseconds() {
    let parsed = parse_duration("0:00:05.135").unwrap();
    let expected = Duration::new(5, 135 * 1000000);
    assert_eq!(parsed, expected);
}

#[test]
fn minutes() {
    let parsed = parse_duration("0:02:37.742").unwrap();
    let expected = Duration::new(2 * 60 + 37, 742 * 1000000);
    assert_eq!(parsed, expected);
}

#[test]
fn hours() {
    let parsed = parse_duration("2:16:52.052").unwrap();
    let expected = Duration::new(2 * 60 * 60 + 16 * 60 + 52, 052 * 1000000);
    assert_eq!(parsed, expected);
}

#[test]
fn seconds_only_component() {
    assert_eq!(parse_duration("42").unwrap(), Duration::new(42, 0));
}

#[test]
fn fraction_scaled_up() {
    assert_eq!(parse_duration("0:01.5").unwrap(), Duration::new(1, 500_000_000));
    assert_eq!(parse_duration("0:01.05").unwrap(), Duration::new(1, 50_000_000));
}

#[test]
fn fraction_nine_places_kept() {
    assert_eq!(parse_duration("0:01.123456789").unwrap(), Duration::new(1, 123_456_789));
}

#[test]
fn fraction_beyond_nanoseconds_truncated() {
    assert_eq!(parse_duration("0:01.1234567899").unwrap(), Duration::new(1, 123_456_789));
}

#[test]
fn fraction_many_zero_places() {
    assert_eq!(parse_duration("0:01.0000000000000000000001").unwrap(), Duration::new(1, 0));
}

#[test]
fn fraction_too_large_for_u32() {
    assert_eq!(parse_duration("0:01.99999999999").unwrap(), Duration::new(1, 999_999_999));
    assert_eq!(parse_duration("0:01.9999999999").unwrap(), Duration::new(1, 999_999_999));
}

#[test]
fn long_fraction_truncated() {
    assert_eq!(parse_duration("0.123456789123456").unwrap(), Duration::new(0, 123_456_789));
    assert_eq!(
        parse_duration("0:01.12345678912345678912345678").unwrap(),
        Duration::new(1, 123_456_789)
    );
    assert_eq!(parse_duration("0:01.1234567891234x"), Err(Error::InvalidCueTime));
}

#[test]
fn leading_plus_accepted() {
    assert_eq!(parse_duration("+1:+5").unwrap(), Duration::new(65, 0));
}

#[test]
fn non_numeric_component_rejected() {
    assert_eq!(parse_duration("0:0a"), Err(Error::InvalidCueTime));
    assert_eq!(parse_duration("x:05"), Err(Error::InvalidCueTime));
    assert_eq!(parse_duration("-1:05"), Err(Error::InvalidCueTime));
    assert_eq!(parse_duration(""), Err(Error::InvalidCueTime));
    assert_eq!(parse_duration("0:05."), Err(Error::InvalidCueTime));
    assert_eq!(parse_duration("0:05.1.2"), Err(Error::InvalidCueTime));
    assert_eq!(parse_duration("1.5:05"), Err(Error::InvalidCueTime));
}

#[test]
fn too_many_components_rejected() {
    assert_eq!(parse_duration("1:2:3:4"), Err(Error::InvalidCueTime));
}

#[test]
fn seconds_overflow_rejected() {
    assert_eq!(parse_duration("18446744073709551616"), Err(Error::InvalidCueTime));
    assert_eq!(parse_duration("5124095576030432:0:0"), Err(Error::InvalidCueTime));
    assert_eq!(
        parse_duration("18446744073709551615").unwrap(),
        Duration::new(18446744073709551615, 0)
    );
}

#[test]
fn duration_new_carries_whole_seconds() {
    let d = Duration::new(1, 2_500_000_000);
    assert_eq!(d.as_secs(), 3);
    assert_eq!(d.subsec_nanos(), 500_000_000);
}
