use ghee::duration::{
    duration_from_str, duration_trunc_day, duration_trunc_hour, duration_trunc_month,
    duration_trunc_week, duration_trunc_year,
};
use ghee::timestamp::Timestamp;

fn ts(y: u64, mo: u64, d: u64, h: u64, mi: u64, s: u64) -> Timestamp {
    Timestamp::new(y, mo, d, h, mi, s, 0).expect("valid timestamp")
}

#[test]
fn weekdays_as_expected() {
    // ISO week 5 of 2022 runs from Monday 2022-01-31 to Sunday 2022-02-06
    let mon = ts(2022, 1, 31, 0, 0, 0);
    let sun = ts(2022, 2, 6, 0, 0, 0);
    let duration = sun.secs - mon.secs;
    assert_eq!(duration, 6 * 86400);
    assert_eq!(duration_trunc_week(&sun), mon);
    assert_eq!(duration_trunc_week(&mon), mon);
}

#[test]
fn week_edge_cases() {
    let cases = Vec::from([
        (ts(2022, 1, 1, 0, 0, 0), ts(2021, 12, 27, 0, 0, 0)),
        (ts(2022, 1, 2, 0, 0, 0), ts(2021, 12, 27, 0, 0, 0)),
        (ts(2022, 1, 3, 0, 0, 0), ts(2022, 1, 3, 0, 0, 0)),
        (ts(2022, 1, 4, 0, 0, 0), ts(2022, 1, 3, 0, 0, 0)),
        (ts(2022, 10, 22, 0, 0, 0), ts(2022, 10, 17, 0, 0, 0)),
        (ts(2020, 12, 29, 0, 0, 0), ts(2020, 12, 28, 0, 0, 0)),
        (ts(2021, 1, 2, 0, 0, 0), ts(2020, 12, 28, 0, 0, 0)),
    ]);

    for (date, week_trunced) in cases {
        let calculated = duration_trunc_week(&date);
        assert_eq!(calculated, week_trunced);
    }
}

#[test]
fn years() {
    let cases = Vec::from([
        (ts(2022, 1, 1, 0, 0, 0), ts(2022, 1, 1, 0, 0, 0)),
        (ts(2022, 1, 2, 0, 0, 0), ts(2022, 1, 1, 0, 0, 0)),
        (ts(2022, 12, 30, 0, 0, 0), ts(2022, 1, 1, 0, 0, 0)),
        (ts(2022, 12, 31, 0, 0, 0), ts(2022, 1, 1, 0, 0, 0)),
    ]);

    for (date, year_trunced) in cases {
        let calculated = duration_trunc_year(&date);
        assert_eq!(calculated, year_trunced);
    }
}

#[test]
fn days() {
    let cases = Vec::from([
        (ts(2022, 1, 1, 1, 0, 0), ts(2022, 1, 1, 0, 0, 0)),
        (ts(2022, 1, 2, 10, 0, 0), ts(2022, 1, 2, 0, 0, 0)),
        (ts(2022, 12, 30, 23, 59, 59), ts(2022, 12, 30, 0, 0, 0)),
        (ts(2022, 12, 31, 15, 38, 17), ts(2022, 12, 31, 0, 0, 0)),
    ]);

    for (date, day_trunced) in cases {
        let calculated = duration_trunc_day(&date);
        assert_eq!(calculated, day_trunced);
    }
}

#[test]
fn months() {
    let cases = Vec::from([
        (ts(2022, 1, 1, 1, 0, 0), ts(2022, 1, 1, 0, 0, 0)),
        (ts(2022, 1, 2, 10, 0, 0), ts(2022, 1, 1, 0, 0, 0)),
        (ts(2022, 12, 30, 23, 59, 59), ts(2022, 12, 1, 0, 0, 0)),
        (ts(2022, 12, 31, 15, 38, 17), ts(2022, 12, 1, 0, 0, 0)),
    ]);

    for (date, month_trunced) in cases {
        let calculated = duration_trunc_month(&date);
        assert_eq!(calculated, month_trunced);
    }
}

#[test]
fn hours() {
    let cases = Vec::from([
        (ts(2022, 1, 1, 0, 0, 0), ts(2022, 1, 1, 0, 0, 0)),
        (ts(2022, 1, 2, 10, 0, 0), ts(2022, 1, 2, 10, 0, 0)),
        (ts(2022, 12, 30, 23, 59, 59), ts(2022, 12, 30, 23, 0, 0)),
        (ts(2022, 12, 31, 15, 38, 17), ts(2022, 12, 31, 15, 0, 0)),
    ]);

    for (date, hour_trunced) in cases {
        let calculated = duration_trunc_hour(&date);
        assert_eq!(calculated, hour_trunced);
    }
}

#[test]
fn duration_grammar_totals() {
    assert_eq!(duration_from_str(""), Ok(0));
    assert_eq!(duration_from_str("1h"), Ok(3600));
    assert_eq!(duration_from_str("1d"), Ok(86400));
    assert_eq!(duration_from_str("1w"), Ok(604800));
    // a month is exactly 4 weeks, a year exactly 365 days
    assert_eq!(duration_from_str("1m"), Ok(2419200));
    assert_eq!(duration_from_str("1y"), Ok(31536000));
    assert_eq!(
        duration_from_str("1h2d3w4m5y"),
        Ok(3600 + 2 * 86400 + 3 * 604800 + 4 * 2419200 + 5 * 31536000)
    );
    assert_eq!(duration_from_str("3h 2d"), Ok(3 * 3600 + 2 * 86400));
}

#[test]
fn duration_grammar_rejections() {
    assert!(duration_from_str("3d3h").is_err());
    assert!(duration_from_str("x").is_err());
    assert!(duration_from_str("3 h").is_err());
    assert!(duration_from_str("3y ").is_err());
    assert!(duration_from_str(" 3h").is_err());
    // whitespace between components is allowed, and before a later component
    assert!(duration_from_str(" 3d").is_ok());
    assert!(duration_from_str("3h ").is_ok());
    // a total beyond the machine range fails instead of wrapping
    assert!(duration_from_str("9223372036854775807y").is_err());
}
