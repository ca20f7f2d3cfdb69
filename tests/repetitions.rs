use chrono::TimeZone;
use planner::repetitions::{RepetitionCount, RepetitionHelpers, WEEK_MILLIS};
use planner::timestamp::Timestamp;

fn at(offset: i32, y: i32, mo: u32, d: u32, h: u32, mi: u32, s: u32) -> Timestamp {
    let zone = chrono::FixedOffset::east_opt(offset).unwrap();
    let t = zone.with_ymd_and_hms(y, mo, d, h, mi, s).unwrap();
    Timestamp { millis: t.timestamp_millis(), offset }
}

#[test]
fn finite_count_is_exhausted_on_last_use() {
    let mut c = RepetitionCount::Finite(3);
    assert!(!c.is_finished_on_update());
    assert_eq!(c, RepetitionCount::Finite(2));
    assert!(!c.is_finished_on_update());
    assert!(c.is_finished_on_update());
    assert_eq!(c, RepetitionCount::Finite(0));
}

#[test]
fn finite_count_of_one_is_exhausted_at_once() {
    let mut c = RepetitionCount::Finite(1);
    assert!(c.update_and_check());
    assert_eq!(c, RepetitionCount::Finite(0));
}

#[test]
fn zero_count_stays_at_zero() {
    let mut c = RepetitionCount::Finite(0);
    assert!(c.update_and_check());
    assert_eq!(c, RepetitionCount::Finite(0));
}

#[test]
fn infinite_count_is_never_exhausted() {
    let mut c = RepetitionCount::Infinite;
    for _ in 0..100 {
        assert!(!c.is_finished_on_update());
    }
    assert_eq!(c, RepetitionCount::Infinite);
}

#[test]
fn weekly_moves_to_next_same_weekday_and_time() {
    // Monday 2024-01-01 10:00 UTC, seen from Saturday 2024-01-20 15:00 UTC.
    let mut date = Timestamp { millis: 1_704_103_200_000, offset: 0 };
    let now = Timestamp { millis: 1_704_103_200_000 + 19 * 86_400_000 + 5 * 3_600_000, offset: 0 };
    assert!(RepetitionHelpers::update_weekly(&now, &mut date));
    assert_eq!(date, Timestamp { millis: 1_705_917_600_000, offset: 0 });
    assert_eq!(date, at(0, 2024, 1, 22, 10, 0, 0));
}

#[test]
fn weekly_result_lies_strictly_after_now() {
    let start = at(3600, 2024, 3, 4, 8, 0, 0);
    let mut date = start;
    let now = Timestamp { millis: start.millis + WEEK_MILLIS, offset: 3600 };
    assert!(RepetitionHelpers::update_weekly(&now, &mut date));
    assert_eq!(date.millis, start.millis + 2 * WEEK_MILLIS);
    assert_eq!(date.offset, 3600);
}

#[test]
fn const_gap_lands_on_first_step_after_now() {
    let now = Timestamp { millis: 100, offset: 0 };
    let mut date = Timestamp { millis: 0, offset: 0 };
    assert!(RepetitionHelpers::update_const_gap(&now, &mut date, 30));
    assert_eq!(date.millis, 120);

    let mut same = Timestamp { millis: 50, offset: 0 };
    let now = Timestamp { millis: 50, offset: 0 };
    assert!(RepetitionHelpers::update_const_gap(&now, &mut same, 10));
    assert_eq!(same.millis, 60);
}

#[test]
fn const_gap_keeps_a_future_date() {
    let now = Timestamp { millis: 100, offset: 0 };
    let mut date = Timestamp { millis: 250, offset: 0 };
    assert!(RepetitionHelpers::update_const_gap(&now, &mut date, 30));
    assert_eq!(date.millis, 250);
}

#[test]
fn const_gap_reports_overflow() {
    let now = Timestamp { millis: i64::MAX - 5, offset: 0 };
    let mut date = Timestamp { millis: 0, offset: 0 };
    assert!(!RepetitionHelpers::update_const_gap(&now, &mut date, 1_000));
    assert_eq!(date.millis, 0);
}

#[test]
fn yearly_moves_feb_29_to_next_leap_year() {
    let mut date = at(7200, 2024, 2, 29, 12, 0, 0);
    let now = at(7200, 2024, 3, 1, 0, 0, 0);
    assert!(RepetitionHelpers::update_yearly(&now, &mut date));
    assert_eq!(date, at(7200, 2028, 2, 29, 12, 0, 0));
}

#[test]
fn yearly_skips_century_that_is_not_leap() {
    let mut date = at(0, 2096, 2, 29, 8, 0, 0);
    let now = at(0, 2096, 6, 1, 0, 0, 0);
    assert!(RepetitionHelpers::update_yearly(&now, &mut date));
    assert_eq!(date, at(0, 2104, 2, 29, 8, 0, 0));
}

#[test]
fn yearly_keeps_month_day_and_time() {
    let mut date = at(3600, 2023, 5, 10, 8, 30, 0);
    let now = at(3600, 2023, 5, 10, 9, 0, 0);
    assert!(RepetitionHelpers::update_yearly(&now, &mut date));
    assert_eq!(date, at(3600, 2024, 5, 10, 8, 30, 0));
}

#[test]
fn yearly_keeps_jan_29() {
    let mut date = at(0, 2023, 1, 29, 7, 0, 0);
    let now = at(0, 2023, 1, 29, 8, 0, 0);
    assert!(RepetitionHelpers::update_yearly(&now, &mut date));
    assert_eq!(date, at(0, 2024, 1, 29, 7, 0, 0));
}

#[test]
fn monthly_skips_month_without_the_day() {
    let mut date = at(0, 2023, 1, 31, 10, 0, 0);
    let now = at(0, 2023, 1, 31, 11, 0, 0);
    assert!(RepetitionHelpers::update_monthly(&now, &mut date));
    assert_eq!(date, at(0, 2023, 3, 31, 10, 0, 0));
}

#[test]
fn monthly_wraps_into_january() {
    let mut date = at(-18000, 2023, 12, 15, 9, 0, 0);
    let now = at(-18000, 2023, 12, 20, 0, 0, 0);
    assert!(RepetitionHelpers::update_monthly(&now, &mut date));
    assert_eq!(date, at(-18000, 2024, 1, 15, 9, 0, 0));
}

#[test]
fn monthly_after_firing_moves_one_month_on() {
    let mut date = at(0, 2023, 4, 15, 9, 0, 0);
    let now = at(0, 2023, 4, 15, 9, 0, 1);
    assert!(RepetitionHelpers::update_monthly(&now, &mut date));
    assert_eq!(date, at(0, 2023, 5, 15, 9, 0, 0));
}

#[test]
fn calendar_rules_report_unreadable_offset() {
    let mut date = Timestamp { millis: 0, offset: 90_000 };
    let now = Timestamp { millis: 10, offset: 0 };
    assert!(!RepetitionHelpers::update_monthly(&now, &mut date));
    assert!(!RepetitionHelpers::update_yearly(&now, &mut date));
    assert_eq!(date, Timestamp { millis: 0, offset: 90_000 });
}
