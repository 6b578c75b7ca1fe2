use qframe::storage::Settings;
use qfocus::prefs::{Prefs, TimeOfDay, Weekday, week_start_of_text};

#[test]
fn the_defaults_are_the_documented_ones() {
    let prefs = Prefs::default();
    assert_eq!(prefs.week_start, None, "the week follows the language");
    assert_eq!(prefs.week_starts_on(), Weekday::Monday, "which is the ISO week where there is none");
    assert_eq!(prefs.rollover, TimeOfDay::new(0, 0, 0));
    assert_eq!(prefs.idle_after, 900);
    assert_eq!(prefs.ceiling, 43_200);
    assert!(!prefs.stop_at_goal);
    assert_eq!(prefs.default_goal, 3_600);
    assert_eq!(Prefs::from_settings(&Settings::in_memory()), prefs);
}

#[test]
fn chosen_values_round_trip_through_the_file_and_defaults_are_not_written() {
    let prefs = Prefs {
        week_start: Some(Weekday::Sunday),
        rollover: TimeOfDay::new(4, 30, 0),
        idle_after: 600,
        ceiling: 8 * 3_600,
        stop_at_goal: true,
        default_goal: 1_800,
    };
    let mut settings = Settings::in_memory();
    prefs.write(&mut settings);
    let text = settings.to_toml();
    assert!(text.contains("week-start = \"sunday\""), "{text}");
    assert!(text.contains("day-rollover = \"04:30\""), "{text}");
    let back = Settings::parse_str("settings.toml", &text).schema(Prefs::schema()).self_heal(true);
    assert!(back.diagnostics().is_empty(), "{:?}", back.diagnostics());
    assert_eq!(Prefs::from_settings(&back), prefs);
    Prefs::default().write(&mut settings);
    assert_eq!(settings.to_toml(), "", "defaults leave the file empty");
}

#[test]
fn the_schema_repairs_what_it_cannot_accept_and_reading_falls_back_to_the_defaults() {
    let text =
        "week-start = \"someday\"\nday-rollover = \"25:00\"\nidle-after = 5\nceiling = true\ncolor = \"red\"\n";
    let healed = Settings::parse_str("settings.toml", text).schema(Prefs::schema()).self_heal(true);
    assert_eq!(healed.diagnostics().len(), 5, "{:?}", healed.diagnostics());
    assert_eq!(Prefs::from_settings(&healed), Prefs::default());
    assert!(healed.value("color").is_none());
    // Without healing the values are ignored just the same.
    let checked = Settings::parse_str("settings.toml", text).schema(Prefs::schema());
    assert_eq!(Prefs::from_settings(&checked), Prefs::default());
}

#[test]
fn the_language_names_the_first_day_of_the_week_by_its_number() {
    assert_eq!(week_start_of_text("7"), Weekday::Sunday);
    assert_eq!(week_start_of_text(" 6 "), Weekday::Saturday);
    assert_eq!(week_start_of_text("1"), Weekday::Monday);
    assert_eq!(week_start_of_text("8"), Weekday::Monday);
    assert_eq!(week_start_of_text("0"), Weekday::Monday);
    assert_eq!(week_start_of_text("sunday"), Weekday::Monday);
    let chosen = Prefs { week_start: Some(Weekday::Wednesday), ..Prefs::default() };
    assert_eq!(chosen.week_starts_on_given(Weekday::Sunday), Weekday::Wednesday);
    assert_eq!(Prefs::default().week_starts_on_given(Weekday::Sunday), Weekday::Sunday);
    assert_eq!(chosen.week_starts_on(), Weekday::Wednesday);
}

#[test]
fn out_of_range_numbers_and_wrong_types_give_the_defaults_one_by_one() {
    let text = "idle-after = 86401\nceiling = 604800\ndefault-goal = 59\nstop-at-goal = \"yes\"\nday-rollover = \" 7:05:09 \"\nweek-start = \"friday\"\n";
    let settings = Settings::parse_str("settings.toml", text);
    let prefs = Prefs::from_settings(&settings);
    assert_eq!(prefs.idle_after, 900, "a day and a second is past the longest threshold");
    assert_eq!(prefs.ceiling, 604_800, "a week is the highest ceiling and still allowed");
    assert_eq!(prefs.default_goal, 3_600);
    assert!(!prefs.stop_at_goal);
    assert_eq!(prefs.rollover, TimeOfDay::new(7, 5, 9));
    assert_eq!(prefs.week_start, Some(Weekday::Friday));
}

#[test]
fn a_time_of_day_is_read_the_way_the_framework_reads_it() {
    assert_eq!(TimeOfDay::parse("4:30"), Some(TimeOfDay::new(4, 30, 0)));
    assert_eq!(TimeOfDay::parse("23:59:59"), Some(TimeOfDay::new(23, 59, 59)));
    assert_eq!(TimeOfDay::parse("24:00"), None);
    assert_eq!(TimeOfDay::parse("4"), None);
    assert_eq!(TimeOfDay::parse("004:30"), None);
    assert_eq!(TimeOfDay::new(30, 70, 80), TimeOfDay::new(23, 59, 59));
}
