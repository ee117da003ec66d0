use karamd::date::Date;
use karamd::due::{
    after_completion_due, calendar_due, calendar_occurrence, monthly_due, monthly_due_every, monthly_occurrence,
    nth_weekday_due, nth_weekday_due_every, nth_weekday_occurrence, parse_weekday, weekly_due, weekly_due_every,
    WeekOrdinal, Weekday,
};

fn d(y: i32, m: u32, day: u32) -> Date {
    Date::from_ymd(y, m, day).unwrap()
}

#[test]
fn after_completion_never_run_is_due() {
    assert!(after_completion_due(d(2026, 7, 1), 18, None));
}

#[test]
fn after_completion_before_interval_not_due() {
    let last = d(2026, 6, 20);
    assert!(!after_completion_due(d(2026, 7, 1), 18, Some(last))); // 11 days
}

#[test]
fn after_completion_exactly_due() {
    let last = d(2026, 6, 13);
    assert!(after_completion_due(d(2026, 7, 1), 18, Some(last))); // 18 days
}

#[test]
fn after_completion_overdue() {
    let last = d(2026, 5, 1);
    assert!(after_completion_due(d(2026, 7, 1), 18, Some(last)));
}

#[test]
fn occurrence_normal_date() {
    assert_eq!(calendar_occurrence(2026, "07-20").unwrap(), d(2026, 7, 20));
}

#[test]
fn occurrence_leap_day_clamps_in_common_year() {
    assert_eq!(calendar_occurrence(2026, "02-29").unwrap(), d(2026, 2, 28));
}

#[test]
fn occurrence_leap_day_stays_in_leap_year() {
    assert_eq!(calendar_occurrence(2028, "02-29").unwrap(), d(2028, 2, 29));
}

#[test]
fn occurrence_rejects_bad_format() {
    assert!(calendar_occurrence(2026, "0720").is_err()); // no separator
    assert!(calendar_occurrence(2026, "aa-bb").is_err()); // month unparseable
    assert!(calendar_occurrence(2026, "12-zz").is_err()); // day unparseable
    assert!(calendar_occurrence(2026, "13-40").is_err()); // out of range
}

#[test]
fn calendar_outside_window_not_due() {
    // 20 days out, lead is 10
    assert_eq!(calendar_due(d(2026, 6, 30), "07-20", 10).unwrap(), None);
}

#[test]
fn calendar_inside_window_returns_year() {
    assert_eq!(
        calendar_due(d(2026, 7, 12), "07-20", 10).unwrap(),
        Some(2026)
    );
}

#[test]
fn calendar_on_the_day_is_due() {
    assert_eq!(
        calendar_due(d(2026, 7, 20), "07-20", 10).unwrap(),
        Some(2026)
    );
}

#[test]
fn calendar_after_the_day_not_due() {
    assert_eq!(calendar_due(d(2026, 7, 21), "07-20", 10).unwrap(), None);
}

#[test]
fn calendar_year_rollover_returns_next_year() {
    // today Dec 28 2026, annual Jan 02, lead 10 -> next year's occurrence
    assert_eq!(
        calendar_due(d(2026, 12, 28), "01-02", 10).unwrap(),
        Some(2027)
    );
}

#[test]
fn calendar_propagates_parse_error() {
    assert!(calendar_due(d(2026, 7, 1), "nope", 10).is_err());
}

#[test]
fn monthly_occurrence_normal_day() {
    assert_eq!(monthly_occurrence(2026, 7, 12), d(2026, 7, 12));
}

#[test]
fn monthly_occurrence_clamps_to_short_month() {
    assert_eq!(monthly_occurrence(2026, 6, 31), d(2026, 6, 30));
    assert_eq!(monthly_occurrence(2026, 2, 30), d(2026, 2, 28));
    assert_eq!(monthly_occurrence(2028, 2, 31), d(2028, 2, 29)); // leap year
}

#[test]
fn monthly_occurrence_december() {
    // Exercises the year rollover inside last_day_of_month.
    assert_eq!(monthly_occurrence(2026, 12, 31), d(2026, 12, 31));
}

#[test]
fn monthly_inside_window_returns_year_month() {
    assert_eq!(
        monthly_due(d(2026, 7, 5), 12, 7),
        Some("2026-07".to_string())
    );
}

#[test]
fn monthly_on_the_day_is_due() {
    assert_eq!(
        monthly_due(d(2026, 7, 12), 12, 7),
        Some("2026-07".to_string())
    );
}

#[test]
fn monthly_before_window_not_due() {
    assert_eq!(monthly_due(d(2026, 7, 4), 12, 7), None);
}

#[test]
fn monthly_after_the_day_not_due_until_next_window() {
    assert_eq!(monthly_due(d(2026, 7, 13), 12, 7), None);
    assert_eq!(
        monthly_due(d(2026, 8, 5), 12, 7),
        Some("2026-08".to_string())
    );
}

#[test]
fn monthly_window_straddles_month_boundary() {
    // today Jul 28, day 2, lead 7 -> Aug 2 is 5 days out.
    assert_eq!(
        monthly_due(d(2026, 7, 28), 2, 7),
        Some("2026-08".to_string())
    );
}

#[test]
fn monthly_window_straddles_year_boundary() {
    assert_eq!(
        monthly_due(d(2026, 12, 28), 2, 7),
        Some("2027-01".to_string())
    );
}

#[test]
fn monthly_zero_lead_only_on_the_day() {
    assert_eq!(monthly_due(d(2026, 7, 11), 12, 0), None);
    assert_eq!(
        monthly_due(d(2026, 7, 12), 12, 0),
        Some("2026-07".to_string())
    );
}

#[test]
fn monthly_clamped_day_fires_in_short_month() {
    // day 31 in June clamps to Jun 30.
    assert_eq!(
        monthly_due(d(2026, 6, 28), 31, 7),
        Some("2026-06".to_string())
    );
}

#[test]
fn parse_weekday_accepts_all_seven() {
    assert_eq!(parse_weekday("mon"), Some(Weekday::Mon));
    assert_eq!(parse_weekday("tue"), Some(Weekday::Tue));
    assert_eq!(parse_weekday("wed"), Some(Weekday::Wed));
    assert_eq!(parse_weekday("thu"), Some(Weekday::Thu));
    assert_eq!(parse_weekday("fri"), Some(Weekday::Fri));
    assert_eq!(parse_weekday("sat"), Some(Weekday::Sat));
    assert_eq!(parse_weekday("sun"), Some(Weekday::Sun));
}

#[test]
fn parse_weekday_rejects_other_forms() {
    // Long names, capitalisation, and integers are all rejected: the rules
    // file must use the one canonical form.
    for bad in ["Fri", "friday", "5", "", "mo", "fri "] {
        assert_eq!(parse_weekday(bad), None);
    }
}

#[test]
fn weekly_before_target_day_not_due() {
    // Thu 2026-07-09, rule pinned to Friday: not yet due this ISO week.
    assert_eq!(weekly_due(d(2026, 7, 9), Weekday::Fri), None);
}

#[test]
fn weekly_on_target_day_is_due() {
    // Fri 2026-07-10 is ISO 2026-W28.
    assert_eq!(
        weekly_due(d(2026, 7, 10), Weekday::Fri),
        Some("2026-W28".to_string())
    );
}

#[test]
fn weekly_after_target_day_catches_up_same_week() {
    // Sat and Sun of the same ISO week still fire (self-healing) with the
    // same discriminator, so a late run is not missed.
    assert_eq!(
        weekly_due(d(2026, 7, 11), Weekday::Fri),
        Some("2026-W28".to_string())
    );
    assert_eq!(
        weekly_due(d(2026, 7, 12), Weekday::Fri),
        Some("2026-W28".to_string())
    );
}

#[test]
fn weekly_monday_target_is_due_every_day() {
    // A Monday rule is due Monday and every later day of the week.
    assert_eq!(
        weekly_due(d(2026, 7, 6), Weekday::Mon),
        Some("2026-W28".to_string())
    );
    assert_eq!(
        weekly_due(d(2026, 7, 9), Weekday::Mon),
        Some("2026-W28".to_string())
    );
}

#[test]
fn weekly_sunday_target_only_on_sunday() {
    // Sat 2026-07-11 is before Sunday; Sun 2026-07-12 is due.
    assert_eq!(weekly_due(d(2026, 7, 11), Weekday::Sun), None);
    assert_eq!(
        weekly_due(d(2026, 7, 12), Weekday::Sun),
        Some("2026-W28".to_string())
    );
}

#[test]
fn weekly_discriminator_uses_iso_year_not_calendar_year() {
    // Fri 2027-01-01 belongs to ISO week 2026-W53: the discriminator tracks
    // the ISO year, so a New-Year Friday is not mislabelled 2027-W01.
    assert_eq!(
        weekly_due(d(2027, 1, 1), Weekday::Fri),
        Some("2026-W53".to_string())
    );
}

#[test]
fn nth_weekday_occurrence_first_and_fourth() {
    assert_eq!(
        nth_weekday_occurrence(2026, 7, Weekday::Mon, WeekOrdinal::Nth(1)),
        d(2026, 7, 6)
    );
    assert_eq!(
        nth_weekday_occurrence(2026, 7, Weekday::Mon, WeekOrdinal::Nth(4)),
        d(2026, 7, 27)
    );
}

#[test]
fn nth_weekday_occurrence_last_is_fifth_or_fourth() {
    // July 2026 has five Fridays; last is the 5th.
    assert_eq!(
        nth_weekday_occurrence(2026, 7, Weekday::Fri, WeekOrdinal::Last),
        d(2026, 7, 31)
    );
    // February 2026 has four Wednesdays; last is the 4th.
    assert_eq!(
        nth_weekday_occurrence(2026, 2, Weekday::Wed, WeekOrdinal::Last),
        d(2026, 2, 25)
    );
    // Last Saturday of August 2026.
    assert_eq!(
        nth_weekday_occurrence(2026, 8, Weekday::Sat, WeekOrdinal::Last),
        d(2026, 8, 29)
    );
}

#[test]
fn nth_weekday_before_occurrence_not_due() {
    // First Monday is Jul 6; the 5th is before it.
    assert_eq!(
        nth_weekday_due(d(2026, 7, 5), Weekday::Mon, WeekOrdinal::Nth(1)),
        None
    );
}

#[test]
fn nth_weekday_on_and_after_occurrence_due_same_month() {
    assert_eq!(
        nth_weekday_due(d(2026, 7, 6), Weekday::Mon, WeekOrdinal::Nth(1)),
        Some("2026-07".to_string())
    );
    // Catch-up later in the month keeps the same discriminator.
    assert_eq!(
        nth_weekday_due(d(2026, 7, 20), Weekday::Mon, WeekOrdinal::Nth(1)),
        Some("2026-07".to_string())
    );
}

#[test]
fn nth_weekday_last_friday_due() {
    assert_eq!(
        nth_weekday_due(d(2026, 7, 30), Weekday::Fri, WeekOrdinal::Last),
        None
    );
    assert_eq!(
        nth_weekday_due(d(2026, 7, 31), Weekday::Fri, WeekOrdinal::Last),
        Some("2026-07".to_string())
    );
}

#[test]
fn interval_one_matches_the_plain_helpers() {
    // The interval-aware variants with interval 1 / no anchor reproduce the
    // plain functions exactly.
    assert_eq!(
        weekly_due_every(d(2026, 7, 10), Weekday::Fri, 1, None),
        weekly_due(d(2026, 7, 10), Weekday::Fri)
    );
    assert_eq!(
        monthly_due_every(d(2026, 7, 6), 12, 7, 1, None),
        monthly_due(d(2026, 7, 6), 12, 7)
    );
    assert_eq!(
        nth_weekday_due_every(d(2026, 7, 6), Weekday::Mon, WeekOrdinal::Nth(1), 1, None),
        nth_weekday_due(d(2026, 7, 6), Weekday::Mon, WeekOrdinal::Nth(1))
    );
}

#[test]
fn weekly_biweekly_with_anchor_fires_on_alternating_weeks() {
    let anchor = Some(d(2026, 7, 10)); // Fri of W28
    assert_eq!(
        weekly_due_every(d(2026, 7, 10), Weekday::Fri, 2, anchor),
        Some("2026-W28".to_string())
    );
    // W29 is one week off the anchor -> skipped.
    assert_eq!(
        weekly_due_every(d(2026, 7, 17), Weekday::Fri, 2, anchor),
        None
    );
    // W30 is two weeks off -> fires again.
    assert_eq!(
        weekly_due_every(d(2026, 7, 24), Weekday::Fri, 2, anchor),
        Some("2026-W30".to_string())
    );
}

#[test]
fn weekly_biweekly_without_anchor_is_deterministic_alternation() {
    // With no anchor the cadence aligns to a fixed epoch; consecutive weeks
    // must alternate (exactly one of two adjacent weeks fires).
    let a = weekly_due_every(d(2026, 7, 10), Weekday::Fri, 2, None);
    let b = weekly_due_every(d(2026, 7, 17), Weekday::Fri, 2, None);
    assert!(
        a.is_some() ^ b.is_some(),
        "adjacent biweekly weeks must alternate"
    );
}

#[test]
fn monthly_interval_with_anchor_skips_off_months() {
    let anchor = Some(d(2026, 7, 12));
    assert_eq!(
        monthly_due_every(d(2026, 7, 6), 12, 7, 2, anchor),
        Some("2026-07".to_string())
    );
    assert_eq!(monthly_due_every(d(2026, 8, 6), 12, 7, 2, anchor), None);
    assert_eq!(
        monthly_due_every(d(2026, 9, 6), 12, 7, 2, anchor),
        Some("2026-09".to_string())
    );
}

#[test]
fn nth_weekday_interval_with_anchor_skips_off_months() {
    let anchor = Some(d(2026, 7, 6)); // first Monday of July
    assert_eq!(
        nth_weekday_due_every(d(2026, 7, 6), Weekday::Mon, WeekOrdinal::Nth(1), 2, anchor),
        Some("2026-07".to_string())
    );
    // First Monday of August is off cadence.
    assert_eq!(
        nth_weekday_due_every(d(2026, 8, 3), Weekday::Mon, WeekOrdinal::Nth(1), 2, anchor),
        None
    );
    // First Monday of September is back on cadence.
    assert_eq!(
        nth_weekday_due_every(d(2026, 9, 7), Weekday::Mon, WeekOrdinal::Nth(1), 2, anchor),
        Some("2026-09".to_string())
    );
}

#[test]
fn monthly_windows_at_the_bounds_do_not_overlap() {
    // Day 31 with the longest lead: January's window ends on the 31st and
    // February's (clamped to the 28th) opens on the 1st.
    assert_eq!(monthly_due(d(2026, 1, 31), 31, 27), Some("2026-01".to_string()));
    assert_eq!(monthly_due(d(2026, 2, 1), 31, 27), Some("2026-02".to_string()));
    assert_eq!(monthly_due(d(2026, 1, 3), 31, 27), None);
}
