use himawari_moon::calendar::{
    close_to_month, days_from_civil_x, format_datestr, month_start_ns_x, nearest_month_start,
    parse_datestr,
};
use himawari_moon::sim::SimState;

const SEC: i64 = 1_000_000_000;
const TS_2022: i64 = 1_640_995_200_000_000_000;
const TS_2022_FEB: i64 = 1_643_673_600_000_000_000;

#[test]
fn day_numbers_of_known_dates() {
    assert_eq!(days_from_civil_x(1970, 1, 1), 0);
    assert_eq!(days_from_civil_x(1970, 1, 2), 1);
    assert_eq!(days_from_civil_x(1972, 3, 1), 365 + 365 + 31 + 29);
    assert_eq!(days_from_civil_x(2022, 1, 1), 18993);
}

#[test]
fn month_starts_of_known_months() {
    assert_eq!(month_start_ns_x(1970, 1), 0);
    assert_eq!(month_start_ns_x(2022, 1), TS_2022);
    assert_eq!(month_start_ns_x(2022, 2), TS_2022_FEB);
}

#[test]
fn datestr_parses_to_the_expected_instant() {
    assert_eq!(parse_datestr(b"1970-01-01T00:00:00Z"), Some(0));
    assert_eq!(parse_datestr(b"2022-01-01T00:00:00Z"), Some(TS_2022));
    assert_eq!(
        parse_datestr(b"2022-01-01T01:02:03Z"),
        Some(TS_2022 + (3600 + 2 * 60 + 3) * SEC)
    );
}

#[test]
fn datestr_rejects_malformed_and_out_of_window_input() {
    assert_eq!(parse_datestr(b""), None);
    assert_eq!(parse_datestr(b"2022-01-01T00:00:00"), None);
    assert_eq!(parse_datestr(b"2022-13-01T00:00:00Z"), None);
    assert_eq!(parse_datestr(b"2022-02-29T00:00:00Z"), None);
    assert_eq!(parse_datestr(b"1969-12-31T00:00:00Z"), None);
    assert_eq!(parse_datestr(b"2022-01-01T24:00:00Z"), None);
    assert_eq!(parse_datestr(b"2022-01-01 00:00:00Z"), None);
}

#[test]
fn datestr_round_trips_through_the_formatter() {
    let ts = TS_2022 + (3600 + 2 * 60 + 3) * SEC;
    let s = format_datestr(ts);
    assert_eq!(s, b"2022-01-01T01:02:03Z".to_vec());
    assert_eq!(parse_datestr(s.as_slice()), Some(ts));
    // sub-second parts are truncated
    let s2 = format_datestr(ts + 999_999_999);
    assert_eq!(s2, s);
}

#[test]
fn with_datestr_sets_the_clock() {
    let sim = SimState::new().with_datestr(b"2022-01-01T00:00:00Z");
    assert_eq!(sim.time(), TS_2022);
}

#[test]
fn nearest_month_start_picks_the_closer_boundary() {
    // the 10th of January is nearer to its own month's start
    let jan10 = TS_2022 + 9 * 86_400 * SEC;
    assert_eq!(nearest_month_start(jan10), TS_2022);
    // the 20th is nearer to the start of February
    let jan20 = TS_2022 + 19 * 86_400 * SEC;
    assert_eq!(nearest_month_start(jan20), TS_2022_FEB);
    // exactly on a boundary stays there
    assert_eq!(nearest_month_start(TS_2022), TS_2022);
}

#[test]
fn close_to_month_tests_the_step_window() {
    assert!(close_to_month(TS_2022 + 30 * SEC, 60 * SEC));
    assert!(close_to_month(TS_2022_FEB - 30 * SEC, 60 * SEC));
    assert!(!close_to_month(TS_2022 + 120 * SEC, 60 * SEC));
    // a boundary instant is always close
    assert!(close_to_month(TS_2022, 60 * SEC));
}
