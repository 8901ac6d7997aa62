use os_metric_beats::utils_module::time_utils::{
    get_current_utc_naivedate, get_currnet_utc_naivedatetime, get_naive_date_from_str,
    get_naive_datetime_from_str, get_str_from_naive_datetime, get_str_from_naivedate,
    get_str_from_naivedatetime, DateParts, DateTimeParts,
};

fn sample_dt() -> DateTimeParts {
    DateTimeParts { year: 2024, month: 10, day: 16, hour: 7, minute: 5, second: 9 }
}

#[test]
fn datetime_formats_iso_timestamp() {
    let s = get_str_from_naivedatetime(sample_dt(), "%Y-%m-%dT%H:%M:%SZ").expect("supported");
    assert_eq!(s, "2024-10-16T07:05:09Z");
}

#[test]
fn datetime_formats_compact_date() {
    let s = get_str_from_naivedatetime(sample_dt(), "%Y%m%d").expect("supported");
    assert_eq!(s, "20241016");
}

#[test]
fn datetime_rejects_what_no_formatter_accepts() {
    assert!(get_str_from_naivedatetime(sample_dt(), "%Y-%J").is_err());
    assert!(get_str_from_naivedatetime(sample_dt(), "ends with %").is_err());
    // an offset directive has nothing to render on a naive value
    assert!(get_str_from_naivedatetime(sample_dt(), "%z").is_err());
}

#[test]
fn datetime_formats_the_wider_grammar_through_the_fallback() {
    assert_eq!(
        get_str_from_naivedatetime(sample_dt(), "100%%").expect("literal percent"),
        "100%"
    );
    assert_eq!(
        get_str_from_naivedatetime(sample_dt(), "%b %e").expect("month name, padded day"),
        "Oct 16"
    );
    let padded = DateTimeParts { year: 2024, month: 10, day: 7, hour: 7, minute: 5, second: 9 };
    assert_eq!(get_str_from_naivedatetime(padded, "%e").expect("space-padded day"), " 7");
    assert_eq!(get_str_from_naivedatetime(sample_dt(), "%F").expect("composite"), "2024-10-16");
}

#[test]
fn date_formats_and_rejects_time_directives() {
    let d = DateParts { year: 44, month: 3, day: 7 };
    assert_eq!(get_str_from_naivedate(d, "%Y-%m-%d").expect("supported"), "0044-03-07");
    assert!(get_str_from_naivedate(d, "%H").is_err());
}

#[test]
fn naive_datetime_alias_formats_the_same() {
    let a = get_str_from_naivedatetime(sample_dt(), "%Y%m%d").expect("supported");
    let b = get_str_from_naive_datetime(sample_dt(), "%Y%m%d").expect("supported");
    assert_eq!(a, b);
}

#[test]
fn clock_wrappers_stay_in_calendar_ranges() {
    let d = get_current_utc_naivedate();
    assert!((1..=12).contains(&d.month));
    assert!((1..=31).contains(&d.day));
    let t = get_currnet_utc_naivedatetime();
    assert!((1..=12).contains(&t.month));
    assert!((1..=31).contains(&t.day));
    assert!(t.hour < 24);
    assert!(t.minute < 60);
    assert!(t.second < 60);
}

#[test]
fn datetime_parses_its_own_output() {
    let dt = sample_dt();
    let s = get_str_from_naivedatetime(dt, "%Y-%m-%dT%H:%M:%SZ").expect("supported");
    let back = get_naive_datetime_from_str(&s, "%Y-%m-%dT%H:%M:%SZ").expect("parses back");
    assert_eq!(back, dt);
}

#[test]
fn datetime_parse_rejects_mismatch_and_bad_ranges() {
    assert!(get_naive_datetime_from_str("2024-13-01T00:00:00Z", "%Y-%m-%dT%H:%M:%SZ").is_err());
    assert!(get_naive_datetime_from_str("2024/10/16", "%Y-%m-%d").is_err());
    assert!(get_naive_datetime_from_str("20241016extra", "%Y%m%d").is_err());
    assert!(get_naive_datetime_from_str("2024101", "%Y%m%d").is_err());
}

#[test]
fn date_parses_compact_form() {
    let d = get_naive_date_from_str("20241016", "%Y%m%d").expect("parses");
    assert_eq!(d, DateParts { year: 2024, month: 10, day: 16 });
    assert!(get_naive_date_from_str("2024-00-16", "%Y-%m-%d").is_err());
}

#[test]
fn parsers_accept_the_wider_grammar_through_the_fallback() {
    let dt = get_naive_datetime_from_str("2024-Oct-16 07:05:09", "%Y-%b-%d %H:%M:%S")
        .expect("month name parses");
    assert_eq!(dt, sample_dt());
    let d = get_naive_date_from_str("2024-Oct-16", "%Y-%b-%d").expect("month name parses");
    assert_eq!(d, DateParts { year: 2024, month: 10, day: 16 });
    // chrono reads a short year where the verified grammar wants four digits
    let short = get_naive_date_from_str("999-01-02", "%Y-%m-%d").expect("short year parses");
    assert_eq!(short, DateParts { year: 999, month: 1, day: 2 });
}
