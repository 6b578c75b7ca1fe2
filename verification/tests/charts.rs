use qfocus::charts::{Charts, Msg, Scale, hour_tenths, update};
use qfocus::prefs::Weekday;

#[test]
fn choosing_a_scale_forgets_the_pick_and_reading_can_stop() {
    let mut screen = Charts::new();
    let _ = update(&mut screen, Msg::Select(3));
    assert_eq!(screen.selected(), Some(3));
    let _ = update(&mut screen, Msg::Scale(Scale::Month.index()));
    assert_eq!((screen.scale(), screen.selected()), (Scale::Month, None));
    let _ = update(&mut screen, Msg::Read(Some(4)));
    let _ = update(&mut screen, Msg::Read(None));
    assert_eq!(screen.selected(), None);
    let _ = update(&mut screen, Msg::Scale(99));
    assert_eq!(screen.scale(), Scale::Day, "out of range is the first");
}

fn hours(seconds: u64) -> f32 {
    (hour_tenths(seconds) as f32) / 10.0
}

#[test]
fn hours_round_up_to_a_tenth_so_a_minute_is_seen() {
    assert_eq!(hours(0), 0.0);
    assert_eq!(hours(60), 0.1);
    assert_eq!(hours(3_600), 1.0);
    assert_eq!(hours(3_600 + 30 * 60), 1.5);
}

#[test]
fn choosing_the_scale_shown_keeps_the_pick_and_the_chart_takes_the_keys() {
    let mut screen = Charts::new();
    let _ = update(&mut screen, Msg::Select(5));
    assert!(update(&mut screen, Msg::Scale(0)));
    assert_eq!(screen.selected(), Some(5));
    assert!(!update(&mut screen, Msg::Select(1)));
}

#[test]
fn bars_lie_down_on_a_narrow_terminal() {
    let mut screen = Charts::new();
    assert!(screen.bars_lie_down(71));
    assert!(!screen.bars_lie_down(72));
    let _ = update(&mut screen, Msg::Scale(Scale::Week.index()));
    assert!(screen.bars_lie_down(55));
    assert!(!screen.bars_lie_down(56));
    let _ = update(&mut screen, Msg::Scale(Scale::Year.index()));
    assert!(!screen.bars_lie_down(10));
    assert_eq!(Scale::from_index(2).key(), "month");
}

#[test]
fn tenths_round_up_and_stop_at_the_largest() {
    assert_eq!(hour_tenths(1), 1);
    assert_eq!(hour_tenths(360), 1);
    assert_eq!(hour_tenths(361), 2);
    assert_eq!(hour_tenths(u64::MAX / 10), u64::from(u32::MAX));
}

fn date(year: i32, month: u8, day: u8) -> i64 {
    qframe::date::Date::new(year, month, day).expect("valid date").to_days()
}

#[test]
fn the_week_starts_on_monday_and_the_month_runs_to_today() {
    // 2026-09-18 is a Friday.
    let today = date(2026, 9, 18);
    let week = Scale::Week.range(today, Weekday::Monday);
    assert_eq!(week.from, date(2026, 9, 14));
    assert_eq!(week.days, 7);
    assert_eq!(Scale::Week.previous(today, Weekday::Monday).from, date(2026, 9, 7));
    assert_eq!(Scale::Week.range(today, Weekday::Sunday).from, date(2026, 9, 13));
    let month = Scale::Month.range(today, Weekday::Monday);
    assert_eq!((month.from, month.days), (date(2026, 9, 1), 18));
    let before = Scale::Month.previous(today, Weekday::Monday);
    assert_eq!((before.from, before.days), (date(2026, 8, 1), 31));
}

#[test]
fn the_year_ends_today_and_begins_on_a_monday_fifty_two_weeks_back() {
    let today = date(2026, 9, 18);
    let year = Scale::Year.range(today, Weekday::Monday);
    assert_eq!(qframe::date::Date::from_days(year.from).weekday(), qframe::date::Weekday::Monday);
    assert_eq!(year.from, date(2025, 9, 22));
    assert_eq!(year.end(), date(2026, 9, 19));
    assert_eq!(year.days, 51 * 7 + 5);
    assert_eq!(Scale::Year.previous(today, Weekday::Monday).end(), year.from);
}

#[test]
fn the_day_scale_is_today_and_compares_with_yesterday() {
    let today = date(2026, 9, 18);
    assert_eq!(Scale::Day.range(today, Weekday::Monday).from, today);
    assert_eq!(Scale::Day.previous(today, Weekday::Monday).from, date(2026, 9, 17));
    let march = Scale::Month.previous(date(2024, 3, 5), Weekday::Monday);
    assert_eq!((march.from, march.days), (date(2024, 2, 1), 29));
}
