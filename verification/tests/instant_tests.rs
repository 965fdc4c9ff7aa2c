use graf::instant::parse_instant;

#[test]
fn epoch_form_parses_digits() {
    assert_eq!(parse_instant("1678864718", 0), Some(1678864718));
    assert_eq!(parse_instant("1678864718", 999999), Some(1678864718));
    assert_eq!(parse_instant("0", 55), Some(0));
    assert_eq!(parse_instant("  42  ", 7), Some(42));
}

#[test]
fn epoch_form_overflow_fails() {
    assert_eq!(parse_instant("99999999999999999999", 0), None);
    assert_eq!(parse_instant("9223372036854775807", 0), Some(i64::MAX));
    assert_eq!(parse_instant("9223372036854775808", 0), None);
}

#[test]
fn now_returns_reference_instant() {
    assert_eq!(parse_instant("now", 0), Some(0));
    assert_eq!(parse_instant("now", 1678864718), Some(1678864718));
    assert_eq!(parse_instant("now", -5), Some(-5));
    assert_eq!(parse_instant(" now ", 123), Some(123));
}

#[test]
fn relative_offsets_every_unit() {
    let now = 1000000;
    assert_eq!(parse_instant("now+5s", now), Some(now + 5));
    assert_eq!(parse_instant("now-5s", now), Some(now - 5));
    assert_eq!(parse_instant("now+5m", now), Some(now + 5 * 60));
    assert_eq!(parse_instant("now-5m", now), Some(now - 5 * 60));
    assert_eq!(parse_instant("now+2h", now), Some(now + 2 * 3600));
    assert_eq!(parse_instant("now-2h", now), Some(now - 2 * 3600));
    assert_eq!(parse_instant("now+3d", now), Some(now + 3 * 86400));
    assert_eq!(parse_instant("now-3d", now), Some(now - 3 * 86400));
    assert_eq!(parse_instant("now+1y", now), Some(now + 365 * 86400));
    assert_eq!(parse_instant("now-1y", now), Some(now - 365 * 86400));
}

#[test]
fn relative_trims_whitespace_around_integer() {
    assert_eq!(parse_instant("now + 5m", 100), Some(400));
    assert_eq!(parse_instant("now+ 5 m", 100), Some(400));
}

#[test]
fn relative_overflow_fails() {
    assert_eq!(parse_instant("now+1s", i64::MAX), None);
    assert_eq!(parse_instant("now-1s", i64::MIN), None);
    assert_eq!(parse_instant("now+99999999999999999999s", 0), None);
}

#[test]
fn compact_datetime_is_utc() {
    // the documented reference instant, independent of the reference now
    assert_eq!(parse_instant("20160201T130405", 0), Some(1454331845));
    assert_eq!(parse_instant("20160201T130405", 987654321), Some(1454331845));
    assert_eq!(parse_instant("19700101T000000", 5), Some(0));
    assert_eq!(parse_instant("19691231T235959", 5), Some(-1));
}

#[test]
fn compact_datetime_normalizes_month_zero() {
    // month zero counts back into December of the previous year
    assert_eq!(parse_instant("20151201T000000", 0), Some(1448928000));
    assert_eq!(parse_instant("20160001T000000", 0), Some(1448928000));
}

#[test]
fn unparseable_specifiers_fail() {
    assert_eq!(parse_instant("", 0), None);
    assert_eq!(parse_instant("   ", 0), None);
    assert_eq!(parse_instant("abc", 0), None);
    assert_eq!(parse_instant("now+", 0), None);
    assert_eq!(parse_instant("now-", 0), None);
    assert_eq!(parse_instant("now+5x", 0), None);
    assert_eq!(parse_instant("now+m", 0), None);
    assert_eq!(parse_instant("now 5m", 0), None);
    assert_eq!(parse_instant("nowhere", 0), None);
    assert_eq!(parse_instant("20160201X130405", 0), None);
    assert_eq!(parse_instant("2016020AT130405", 0), None);
    assert_eq!(parse_instant("12 34", 0), None);
}

#[test]
fn datetime_shape_never_falls_through_to_now() {
    // fifteen characters with a T at position eight are read as a
    // datetime even when they begin with the word now, and fail there
    assert_eq!(parse_instant("now45678T130405", 0), None);
}
