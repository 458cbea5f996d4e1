use chrono::TimeZone;
use sync_sessions::clock::{
    format_date, format_date_at, format_time, format_time_at, LAST_INSTANT,
};
use sync_sessions::order::text_precedes;

const INSTANT: u64 = 1773585045123;

#[test]
fn dates_at_an_offset() {
    assert_eq!(format_date_at(INSTANT, 0), "2026-03-15");
    assert_eq!(format_date_at(INSTANT, 9 * 3600 + 1800), "2026-03-16");
    assert_eq!(format_date_at(INSTANT, -15 * 3600), "2026-03-14");
    assert_eq!(format_date_at(0, 0), "1970-01-01");
    assert_eq!(format_date_at(0, -1), "1969-12-31");
    assert_eq!(format_date_at(951782400000, 0), "2000-02-29");
    assert_eq!(format_date_at(253402300800000, 0), "+10000-01-01");
    assert_eq!(format_date_at(LAST_INSTANT, 0), "+262142-12-31");
    assert_eq!(format_date_at(LAST_INSTANT, 86_399), "+262143-01-01");
}

#[test]
fn dates_of_the_calendar() {
    let days: [(u64, &str); 12] = [
        (30, "1970-01-31"),
        (31, "1970-02-01"),
        (58, "1970-02-28"),
        (59, "1970-03-01"),
        (364, "1970-12-31"),
        (365, "1971-01-01"),
        (789, "1972-02-29"),
        (790, "1972-03-01"),
        (11_322, "2000-12-31"),
        (47_540, "2100-02-28"),
        (47_541, "2100-03-01"),
        (2_932_896, "9999-12-31"),
    ];
    for (day, date) in days {
        assert_eq!(format_date_at(day * 86_400_000, 0), date);
        assert_eq!(format_date_at(day * 86_400_000 + 86_399_999, 0), date);
    }
}

#[test]
fn later_dates_stand_after_earlier_ones() {
    for offset in [-86_399, -3600, 0, 9 * 3600, 86_399] {
        let mut before = format_date_at(0, offset);
        for step in 1..4000u64 {
            let date = format_date_at(step * 733 * 86_400_000, offset);
            assert!(text_precedes(&before, &date));
            assert!(!text_precedes(&date, &before));
            before = date;
        }
        assert_eq!(format_date_at(INSTANT, offset), format_date_at(INSTANT + 1, offset));
    }
    let last = format_date_at(253_402_300_799_999, 0);
    assert_eq!(last, "9999-12-31");
    assert!(text_precedes(&format_date_at(253_402_300_800_000, 0), &last));
}

#[test]
fn times_at_an_offset() {
    assert_eq!(format_time_at(INSTANT, 0), "14:30:45");
    assert_eq!(format_time_at(INSTANT, 9 * 3600 + 1800), "00:00:45");
    assert_eq!(format_time_at(0, -1), "23:59:59");
    assert_eq!(format_time_at(999, 0), "00:00:00");
    assert_eq!(format_time_at(LAST_INSTANT, 0), "23:59:59");
    assert_eq!(format_time_at(LAST_INSTANT, 86_399), "23:59:58");
}

#[test]
fn one_local_day_has_one_date() {
    for second in 0..24 {
        assert_eq!(format_date_at(INSTANT - 52_245_123 + second * 3_600_000, 0), "2026-03-15");
    }
}

#[test]
fn the_clock_of_this_machine() {
    for millis in [0u64, INSTANT, 1_600_000_000_000, 1_700_000_000_000, LAST_INSTANT] {
        let local = chrono::Local.timestamp_millis_opt(millis as i64).unwrap();
        let date = local.format("%Y-%m-%d").to_string();
        let time = local.format("%H:%M:%S").to_string();
        assert_eq!(format_date(millis), date);
        assert_eq!(format_time(millis), time);
    }
}

#[test]
fn last_instant_is_the_last_one() {
    assert!(chrono::DateTime::from_timestamp_millis(LAST_INSTANT as i64).is_some());
    assert!(chrono::DateTime::from_timestamp_millis(LAST_INSTANT as i64 + 1).is_none());
}
