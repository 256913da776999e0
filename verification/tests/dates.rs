use server::dates::{current_date, format_rfc3339_utc};

#[test]
fn formats_rfc3339_epoch() {
    assert_eq!(format_rfc3339_utc(0), "1970-01-01T00:00:00Z");
    assert_eq!(format_rfc3339_utc(1_700_000_000), "2023-11-14T22:13:20Z");
}

#[test]
fn formats_leap_days_and_times_before_the_epoch() {
    assert_eq!(format_rfc3339_utc(951_782_400), "2000-02-29T00:00:00Z");
    assert_eq!(format_rfc3339_utc(-1), "1969-12-31T23:59:59Z");
    assert_eq!(format_rfc3339_utc(253_402_300_799), "9999-12-31T23:59:59Z");
}

#[test]
fn current_date_is_the_utc_calendar_day() {
    assert_eq!(current_date(0), "1970-01-01");
    assert_eq!(current_date(-50), "1970-01-01");
    assert_eq!(current_date(1_700_000_000), "2023-11-14");
}

#[test]
fn current_date_is_the_date_part_of_the_timestamp() {
    for secs in [0i64, 1, 86_399, 86_400, 1_700_000_000, 951_782_400] {
        let stamp = format_rfc3339_utc(secs);
        assert_eq!(current_date(secs), stamp.split('T').next().unwrap());
    }
    assert_eq!(current_date(1_700_000_000), "2023-11-14");
    assert_eq!(current_date(-5), "1970-01-01");
}
