use qframe::widgets::AppearanceChange;
use qfocus::prefs::{Prefs, TimeOfDay, Weekday};
use qfocus::settings::{Msg, Request, SettingsScreen, Timed, update, update_in_week};

#[test]
fn a_preference_change_hands_back_the_whole_set_with_one_field_changed() {
    let mut screen = SettingsScreen::new(Vec::new());
    let prefs = Prefs::default();
    // Outside the runtime the week starts on Monday, so Sunday is pinned.
    let request = update(&mut screen, &prefs, Msg::WeekStart(6));
    assert_eq!(request, Some(Request::Prefs(Prefs { week_start: Some(Weekday::Sunday), ..Prefs::default() })));
    // Where the language and region start the week on Sunday, Sunday is not pinned.
    let mut american = qframe::i18n::I18n::builtin();
    american.set_region(Some("US"));
    assert_eq!(american.first_weekday(), qframe::date::Weekday::Sunday);
    let request =
        qframe::i18n::scope(std::sync::Arc::new(american), || update(&mut screen, &prefs, Msg::WeekStart(6)));
    assert_eq!(request, Some(Request::Prefs(Prefs::default())));
    let request = update(&mut screen, &prefs, Msg::Rollover(TimeOfDay::new(4, 15, 30)));
    assert_eq!(request, Some(Request::Prefs(Prefs { rollover: TimeOfDay::new(4, 15, 0), ..Prefs::default() })));
    let request = update(&mut screen, &prefs, Msg::StopAtGoal(true));
    assert_eq!(request, Some(Request::Prefs(Prefs { stop_at_goal: true, ..Prefs::default() })));
    let request = update(&mut screen, &prefs, Msg::WeekStart(9));
    assert_eq!(request, None);
}

#[test]
fn a_length_under_its_floor_is_kept_in_the_field_and_not_applied() {
    let mut screen = SettingsScreen::new(Vec::new());
    let prefs = Prefs::default();
    let request = update(&mut screen, &prefs, Msg::Length(Timed::IdleAfter, 30));
    assert_eq!(request, None);
    assert_eq!(screen.short(), Some((Timed::IdleAfter, 30)));
    let request = update(&mut screen, &prefs, Msg::Length(Timed::IdleAfter, 120));
    assert_eq!(request, Some(Request::Prefs(Prefs { idle_after: 120, ..Prefs::default() })));
    assert_eq!(screen.short(), None);
    let request = update(&mut screen, &prefs, Msg::Length(Timed::Ceiling, 7_200));
    assert_eq!(request, Some(Request::Prefs(Prefs { ceiling: 7_200, ..Prefs::default() })));
    let request = update(&mut screen, &prefs, Msg::Length(Timed::DefaultGoal, 1_800));
    assert_eq!(request, Some(Request::Prefs(Prefs { default_goal: 1_800, ..Prefs::default() })));
}

#[test]
fn an_appearance_change_is_passed_on_and_a_failed_write_is_shown() {
    let mut screen = SettingsScreen::new(Vec::new());
    let prefs = Prefs::default();
    let change = AppearanceChange::Theme("nordic".to_owned());
    let request = update(&mut screen, &prefs, Msg::Appearance(change.clone()));
    assert_eq!(request, Some(Request::Appearance(change)));
    let request = update(&mut screen, &prefs, Msg::Stored(Err("disk full".to_owned())));
    assert_eq!(request, None);
    assert_eq!(screen.failure(), Some("disk full"));
    let _ = update(&mut screen, &prefs, Msg::Stored(Ok(())));
    assert_eq!(screen.failure(), None);
}

#[test]
fn the_sweeping_actions_are_handed_to_the_application() {
    let mut screen = SettingsScreen::new(Vec::new());
    let prefs = Prefs::default();
    let day = qframe::date::Date::new(2026, 3, 31).expect("a date").to_days();
    assert_eq!(update(&mut screen, &prefs, Msg::ResetStats), Some(Request::ResetStats));
    assert_eq!(update(&mut screen, &prefs, Msg::DeleteAll), Some(Request::DeleteAll));
    assert_eq!(update(&mut screen, &prefs, Msg::EmptyTrash), Some(Request::EmptyTrash));
    assert_eq!(update(&mut screen, &prefs, Msg::Purge), Some(Request::Purge));
    assert_eq!(update(&mut screen, &prefs, Msg::PurgeCancelled), Some(Request::PurgeCancelled));
    assert_eq!(update(&mut screen, &prefs, Msg::DeleteOlder(day)), Some(Request::DeleteOlder(day)));
    let today = qframe::date::Date::new(2027, 2, 28).expect("a date").to_days();
    assert_eq!(screen.older_than(today), qframe::date::Date::new(2026, 2, 28).expect("a date").to_days());
    assert_eq!(update(&mut screen, &prefs, Msg::OlderDate(day)), None);
    assert_eq!(screen.older_than(today), day);
}

#[test]
fn a_report_is_shown_until_it_is_read() {
    let problem = qfocus::diagnostics::Diagnostic::warning(None, "a key was repaired".to_owned());
    let mut screen = SettingsScreen::new(vec![problem]).with_left_behind(Vec::new()).with_updates(true);
    assert_eq!(screen.repairs().len(), 1);
    assert!(screen.offers_updates());
    let _ = update(&mut screen, &Prefs::default(), Msg::ReadRepairs);
    assert!(screen.repairs().is_empty());
    let _ = update(&mut screen, &Prefs::default(), Msg::ReadLeftBehind);
    assert!(screen.left_behind().is_empty());
}

#[test]
fn the_language_s_own_first_day_is_followed_rather_than_pinned() {
    let mut screen = SettingsScreen::new(Vec::new());
    let prefs = Prefs { week_start: Some(Weekday::Friday), ..Prefs::default() };
    let request = update_in_week(&mut screen, &prefs, Msg::WeekStart(5), Weekday::Saturday);
    assert_eq!(request, Some(Request::Prefs(Prefs::default())));
    let request = update_in_week(&mut screen, &prefs, Msg::WeekStart(0), Weekday::Saturday);
    assert_eq!(request, Some(Request::Prefs(Prefs { week_start: Some(Weekday::Monday), ..Prefs::default() })));
    let request = update_in_week(&mut screen, &prefs, Msg::WeekStart(7), Weekday::Saturday);
    assert_eq!(request, None);
}

#[test]
fn a_year_before_a_leap_day_is_the_last_of_february() {
    let screen = SettingsScreen::new(Vec::new());
    let leap_day = qframe::date::Date::new(2028, 2, 29).expect("a date").to_days();
    assert_eq!(screen.older_than(leap_day), qframe::date::Date::new(2027, 2, 28).expect("a date").to_days());
}
