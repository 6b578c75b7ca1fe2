//! The Settings screen: what the person can change about qfocus, and the sweeping actions at
//! the bottom.
//!
//! qfocus's own preferences come from [`Prefs`], which the application owns; a change is handed
//! back as a [`Request`] carrying the whole set with the one field changed, so it can be applied
//! at once and written by the application. A length typed under its floor is kept in the field
//! with the reason and not applied. Nothing here is destructive on its own: the actions that
//! delete or empty hand back a request, and the application does them.

use vstd::prelude::*;

use qframe::widgets::AppearanceChange;

use crate::diagnostics::{Diagnostic, DiagnosticView};
use crate::prefs::{Prefs, TimeOfDay, Weekday, weekday_numbered};
use crate::session::line::diagnostic_views;

verus! {

#[verifier::external_type_specification]
#[verifier::external_body]
pub struct ExAppearanceChange(AppearanceChange);

/// `Clone` of the framework's appearance change, which its `derive` writes: the copy is the same
/// change.
pub assume_specification[ <qframe::widgets::AppearanceChange as core::clone::Clone>::clone ](
    change: &qframe::widgets::AppearanceChange,
) -> (copy: qframe::widgets::AppearanceChange)
    ensures
        copy == *change,
;

/// `Clone` of a result, which std writes for every result whose two sides can be cloned; nothing
/// is said of the copy here.
pub assume_specification<T: core::clone::Clone, E: core::clone::Clone>[ <core::result::Result<T, E> as core::clone::Clone>::clone ](
    result: &core::result::Result<T, E>,
) -> core::result::Result<T, E>;

/// The shortest idle threshold that can be typed, in seconds: a minute.
pub const IDLE_LEAST: u64 = 60;

/// The lowest ceiling that can be typed, in seconds: an hour.
pub const CEILING_LEAST: u64 = 3_600;

/// The shortest suggested goal that can be typed, in seconds: a minute.
pub const GOAL_LEAST: u64 = 60;

/// A preference set from a length of time, for a value typed under its floor.
#[derive(Debug, Clone, Copy, PartialEq, Eq, Structural)]
pub enum Timed {
    /// The idle threshold.
    IdleAfter,
    /// The session ceiling.
    Ceiling,
    /// The suggested goal.
    DefaultGoal,
}

/// The least a preference set from a length accepts, in seconds.
pub open spec fn least_of(which: Timed) -> u64 {
    match which {
        Timed::IdleAfter => IDLE_LEAST,
        Timed::Ceiling => CEILING_LEAST,
        Timed::DefaultGoal => GOAL_LEAST,
    }
}

impl Timed {
    /// The least the preference accepts, in seconds.
    pub fn least(self) -> (seconds: u64)
        ensures
            seconds == least_of(self),
    {
        match self {
            Timed::IdleAfter => IDLE_LEAST,
            Timed::Ceiling => CEILING_LEAST,
            Timed::DefaultGoal => GOAL_LEAST,
        }
    }
}

/// Something that happened on the screen.
#[derive(Debug, Clone, PartialEq, Eq)]
pub enum Msg {
    /// An appearance row of the family's own section was changed.
    Appearance(AppearanceChange),
    /// The day the week starts on was chosen, by position among the weekdays, Monday first.
    WeekStart(usize),
    /// The hour the day turns at was set.
    Rollover(TimeOfDay),
    /// A length, in seconds, was typed for a preference.
    Length(Timed, u64),
    /// The stop-at-goal switch was moved.
    StopAtGoal(bool),
    /// The hold to delete every record completed.
    ResetStats,
    /// The day the older records are deleted before was chosen, counted from 1970-01-01.
    OlderDate(i64),
    /// The hold to delete the records before this day completed.
    DeleteOlder(i64),
    /// The hold to delete everything completed.
    DeleteAll,
    /// The hold to empty the trash completed; the application asks before it does anything.
    EmptyTrash,
    /// Emptying the trash was confirmed.
    Purge,
    /// Emptying the trash was cancelled.
    PurgeCancelled,
    /// The repair report was read and can go.
    ReadRepairs,
    /// The report of the old files that were not moved was read and can go.
    ReadLeftBehind,
    /// The application wrote the settings, or could not.
    Stored(Result<(), String>),
}

/// What the screen asks the application for.
#[derive(Debug, Clone, PartialEq, Eq)]
pub enum Request {
    /// Apply and save an appearance change; only the application holds the rows' state.
    Appearance(AppearanceChange),
    /// Use and store these preferences.
    Prefs(Prefs),
    /// Move every session to the trash.
    ResetStats,
    /// Move every session whose day is before this one, counted from 1970-01-01, to the trash.
    DeleteOlder(i64),
    /// Move every session to the trash and archive every category and focus.
    DeleteAll,
    /// Say what emptying the trash would take and ask before doing it.
    EmptyTrash,
    /// Empty the trash for good.
    Purge,
    /// Say that the trash was left as it is.
    PurgeCancelled,
}

/// The state of the screen.
#[derive(Debug, Clone)]
pub struct SettingsScreen {
    /// What reading the settings file had to put right, until it is read.
    repairs: Vec<Diagnostic>,
    repairs_read: bool,
    /// Files from an earlier version's settings folder that were not moved, until read.
    left_behind: Vec<Diagnostic>,
    left_behind_read: bool,
    /// Why the last write failed, until one succeeds.
    failure: Option<String>,
    /// A length typed under its floor, kept in the field with the reason until it is fixed.
    short: Option<(Timed, u64)>,
    /// The day the older records are deleted before, once chosen; until then a year before today.
    older: Option<i64>,
    /// Whether the family's update notice is offered right after the appearance section.
    updates: bool,
}

/// The screen as the values it holds.
pub struct SettingsScreenView {
    pub repairs: Seq<DiagnosticView>,
    pub repairs_read: bool,
    pub left_behind: Seq<DiagnosticView>,
    pub left_behind_read: bool,
    pub failure: Option<Seq<char>>,
    pub short: Option<(Timed, u64)>,
    pub older: Option<i64>,
    pub updates: bool,
}

impl View for SettingsScreen {
    type V = SettingsScreenView;

    closed spec fn view(&self) -> SettingsScreenView {
        SettingsScreenView {
            repairs: diagnostic_views(self.repairs@),
            repairs_read: self.repairs_read,
            left_behind: diagnostic_views(self.left_behind@),
            left_behind_read: self.left_behind_read,
            failure: crate::screen::text_of(self.failure),
            short: self.short,
            older: self.older,
            updates: self.updates,
        }
    }
}

/// The weekday at `index` among the weekdays, Monday first.
pub open spec fn weekday_at(index: int) -> Option<Weekday> {
    weekday_numbered(index + 1)
}

/// The time `time` set as the rollover: on the minute, each part at most its largest value.
pub open spec fn on_the_minute(time: TimeOfDay) -> TimeOfDay {
    TimeOfDay { hour: if time.hour > 23 { 23 } else { time.hour }, minute: if time.minute > 59 { 59 } else { time.minute }, second: 0 }
}

/// The preferences with a length of `seconds` typed for `which`, at or above its floor: the idle
/// threshold takes it whole; the ceiling and the goal, which count in `u32`, at most the largest.
pub open spec fn with_length(prefs: Prefs, which: Timed, seconds: u64) -> Prefs {
    let capped = if seconds > u32::MAX { u32::MAX } else { seconds as u32 };
    match which {
        Timed::IdleAfter => Prefs { idle_after: seconds, ..prefs },
        Timed::Ceiling => Prefs { ceiling: capped, ..prefs },
        Timed::DefaultGoal => Prefs { default_goal: capped, ..prefs },
    }
}

/// What `msg` does to the screen over the preferences `prefs`, where the active language starts
/// the week on `first_weekday`: the next state and what the application is asked for. A weekday
/// chosen is pinned only when it is not the language's own first day, so the week keeps following
/// the language when that is the day chosen.
pub open spec fn settings_updated(v: SettingsScreenView, prefs: Prefs, msg: Msg, first_weekday: Weekday) -> (
    SettingsScreenView,
    Option<Request>,
) {
    match msg {
        Msg::Appearance(change) => (v, Some(Request::Appearance(change))),
        Msg::WeekStart(index) => match weekday_at(index as int) {
            Some(day) => (
                v,
                Some(Request::Prefs(Prefs { week_start: if day != first_weekday { Some(day) } else { None }, ..prefs })),
            ),
            None => (v, None),
        },
        Msg::Rollover(time) => (v, Some(Request::Prefs(Prefs { rollover: on_the_minute(time), ..prefs }))),
        Msg::Length(which, seconds) => if seconds < least_of(which) {
            (SettingsScreenView { short: Some((which, seconds)), ..v }, None)
        } else {
            (SettingsScreenView { short: None, ..v }, Some(Request::Prefs(with_length(prefs, which, seconds))))
        },
        Msg::StopAtGoal(on) => (v, Some(Request::Prefs(Prefs { stop_at_goal: on, ..prefs }))),
        Msg::ResetStats => (v, Some(Request::ResetStats)),
        Msg::OlderDate(date) => (SettingsScreenView { older: Some(date), ..v }, None),
        Msg::DeleteOlder(date) => (v, Some(Request::DeleteOlder(date))),
        Msg::DeleteAll => (v, Some(Request::DeleteAll)),
        Msg::EmptyTrash => (v, Some(Request::EmptyTrash)),
        Msg::Purge => (v, Some(Request::Purge)),
        Msg::PurgeCancelled => (v, Some(Request::PurgeCancelled)),
        Msg::ReadRepairs => (SettingsScreenView { repairs_read: true, ..v }, None),
        Msg::ReadLeftBehind => (SettingsScreenView { left_behind_read: true, ..v }, None),
        Msg::Stored(result) => (
            SettingsScreenView {
                failure: match result {
                    Ok(()) => None,
                    Err(reason) => Some(reason@),
                },
                ..v
            },
            None,
        ),
    }
}

/// The day a year before the day `day` on the framework's calendar: the same day of the same
/// month a year earlier, the last of the month where that month is shorter.
pub uninterp spec fn year_before(day: i64) -> i64;

/// `qframe::date::Date::add_months` with twelve months back, on the date of the day `day`: the
/// same day a year before, the last of the month where that month is shorter, so between 365
/// and 366 days back.
#[verifier::external_body]
fn a_year_before(day: i64) -> (before: i64)
    requires
        crate::calendar::on_calendar(day as int),
    ensures
        before == year_before(day),
        365 <= day - before <= 366,
{
    qframe::date::Date::from_days(day).add_months(-12).to_days()
}

impl SettingsScreen {
    /// The screen over a settings file that needed `repairs`.
    pub fn new(repairs: Vec<Diagnostic>) -> (screen: Self)
        ensures
            screen@ == (SettingsScreenView {
                repairs: diagnostic_views(repairs@),
                repairs_read: false,
                left_behind: Seq::empty(),
                left_behind_read: false,
                failure: None,
                short: None,
                older: None,
                updates: false,
            }),
    {
        let screen = SettingsScreen {
            repairs,
            repairs_read: false,
            left_behind: Vec::new(),
            left_behind_read: false,
            failure: None,
            short: None,
            older: None,
            updates: false,
        };
        assert(screen@.left_behind =~= Seq::<DiagnosticView>::empty());
        screen
    }

    /// The same screen offering the family's update notice (`true`) right after the appearance
    /// section, or not.
    pub fn with_updates(self, offered: bool) -> (screen: Self)
        ensures
            screen@ == (SettingsScreenView { updates: offered, ..self@ }),
    {
        let mut screen = self;
        screen.updates = offered;
        screen
    }

    /// The screen that also says which `files` from an earlier version's settings folder were
    /// left where they were.
    pub fn with_left_behind(self, files: Vec<Diagnostic>) -> (screen: Self)
        ensures
            screen@ == (SettingsScreenView { left_behind: diagnostic_views(files@), ..self@ }),
    {
        let mut screen = self;
        screen.left_behind = files;
        screen
    }

    /// The day the older records are deleted before: the one chosen, or a year before `today`.
    pub fn older_than(&self, today: i64) -> (day: i64)
        requires
            crate::calendar::on_calendar(today as int),
        ensures
            day == match self@.older {
                Some(chosen) => chosen,
                None => year_before(today),
            },
    {
        match self.older {
            Some(day) => day,
            None => a_year_before(today),
        }
    }

    /// Why the last write failed, if it did.
    pub fn failure(&self) -> (failure: Option<&str>)
        ensures
            crate::screen::text_of_str(failure) == self@.failure,
    {
        match &self.failure {
            Some(text) => Some(text.as_str()),
            None => None,
        }
    }

    /// A length typed under its floor, kept in the field until it is fixed.
    pub fn short(&self) -> (short: Option<(Timed, u64)>)
        ensures
            short == self@.short,
    {
        self.short
    }

    /// What reading the settings file had to put right, until the report is read: nothing once
    /// it is.
    pub fn repairs(&self) -> (repairs: &[Diagnostic])
        ensures
            diagnostic_views(repairs@) == if self@.repairs_read { Seq::empty() } else { self@.repairs },
    {
        if self.repairs_read {
            let none: &[Diagnostic] = &[];
            assert(diagnostic_views(none@) =~= Seq::<DiagnosticView>::empty());
            none
        } else {
            self.repairs.as_slice()
        }
    }

    /// The files of an earlier version's settings folder that were not moved, until the report
    /// is read: nothing once it is.
    pub fn left_behind(&self) -> (files: &[Diagnostic])
        ensures
            diagnostic_views(files@) == if self@.left_behind_read { Seq::empty() } else { self@.left_behind },
    {
        if self.left_behind_read {
            let none: &[Diagnostic] = &[];
            assert(diagnostic_views(none@) =~= Seq::<DiagnosticView>::empty());
            none
        } else {
            self.left_behind.as_slice()
        }
    }

    /// Whether the family's update notice is offered.
    pub fn offers_updates(&self) -> (offered: bool)
        ensures
            offered == self@.updates,
    {
        self.updates
    }
}

/// `qframe::i18n::first_weekday`: the first day of the week of the active language and region,
/// Monday outside the runtime. It depends on the language the program runs in, so nothing is
/// promised of it.
#[verifier::external_body]
fn active_first_weekday() -> Weekday {
    match qframe::i18n::first_weekday() {
        qframe::date::Weekday::Monday => Weekday::Monday,
        qframe::date::Weekday::Tuesday => Weekday::Tuesday,
        qframe::date::Weekday::Wednesday => Weekday::Wednesday,
        qframe::date::Weekday::Thursday => Weekday::Thursday,
        qframe::date::Weekday::Friday => Weekday::Friday,
        qframe::date::Weekday::Saturday => Weekday::Saturday,
        qframe::date::Weekday::Sunday => Weekday::Sunday,
    }
}

/// Applies `msg` over the preferences `prefs` and says what the application should do, in the
/// week of the active language.
pub fn update(screen: &mut SettingsScreen, prefs: &Prefs, msg: Msg) -> (request: Option<Request>)
    ensures
        exists|first_weekday: Weekday|
            final(screen)@ == settings_updated(old(screen)@, *prefs, msg, first_weekday).0 && request
                == settings_updated(old(screen)@, *prefs, msg, first_weekday).1,
{
    let first_weekday = active_first_weekday();
    update_in_week(screen, prefs, msg, first_weekday)
}

/// Applies `msg` over the preferences `prefs` and says what the application should do;
/// `first_weekday` is the first day of the week of the active language.
pub fn update_in_week(screen: &mut SettingsScreen, prefs: &Prefs, msg: Msg, first_weekday: Weekday) -> (request: Option<Request>)
    ensures
        final(screen)@ == settings_updated(old(screen)@, *prefs, msg, first_weekday).0,
        request == settings_updated(old(screen)@, *prefs, msg, first_weekday).1,
{
    match msg {
        // The rows themselves live in the framework's appearance section, which the application
        // holds: it applies the change and saves it, so the screen only passes it on.
        Msg::Appearance(change) => Some(Request::Appearance(change)),
        Msg::WeekStart(index) => {
            if index >= 7 {
                return None;
            }
            let day = match Weekday::from_number(index as u8 + 1) {
                Some(day) => day,
                None => return None,
            };
            let week_start = if day != first_weekday { Some(day) } else { None };
            Some(Request::Prefs(Prefs { week_start, ..*prefs }))
        },
        Msg::Rollover(time) => {
            let rollover = TimeOfDay::new(time.hour, time.minute, 0);
            Some(Request::Prefs(Prefs { rollover, ..*prefs }))
        },
        Msg::Length(which, seconds) => {
            if seconds < which.least() {
                screen.short = Some((which, seconds));
                return None;
            }
            screen.short = None;
            let capped: u32 = if seconds > u32::MAX as u64 {
                u32::MAX
            } else {
                seconds as u32
            };
            let next = match which {
                Timed::IdleAfter => Prefs { idle_after: seconds, ..*prefs },
                Timed::Ceiling => Prefs { ceiling: capped, ..*prefs },
                Timed::DefaultGoal => Prefs { default_goal: capped, ..*prefs },
            };
            Some(Request::Prefs(next))
        },
        Msg::StopAtGoal(on) => Some(Request::Prefs(Prefs { stop_at_goal: on, ..*prefs })),
        Msg::ResetStats => Some(Request::ResetStats),
        Msg::OlderDate(date) => {
            screen.older = Some(date);
            None
        },
        Msg::DeleteOlder(date) => Some(Request::DeleteOlder(date)),
        Msg::DeleteAll => Some(Request::DeleteAll),
        Msg::EmptyTrash => Some(Request::EmptyTrash),
        Msg::Purge => Some(Request::Purge),
        Msg::PurgeCancelled => Some(Request::PurgeCancelled),
        Msg::ReadRepairs => {
            screen.repairs_read = true;
            None
        },
        Msg::ReadLeftBehind => {
            screen.left_behind_read = true;
            None
        },
        Msg::Stored(result) => {
            screen.failure = match result {
                Ok(()) => None,
                Err(reason) => Some(reason),
            };
            None
        },
    }
}

/// A preference change hands back the whole set with the one field changed: whatever the
/// screen was told, every preference it hands back that it was not told about is the one it was
/// given.
pub proof fn law_a_change_touches_one_preference(v: SettingsScreenView, prefs: Prefs, msg: Msg, first_weekday: Weekday)
    ensures
        settings_updated(v, prefs, msg, first_weekday).1 matches Some(Request::Prefs(next)) ==> match msg {
            Msg::WeekStart(_) => next == Prefs { week_start: next.week_start, ..prefs },
            Msg::Rollover(_) => next == Prefs { rollover: next.rollover, ..prefs },
            Msg::Length(Timed::IdleAfter, _) => next == Prefs { idle_after: next.idle_after, ..prefs },
            Msg::Length(Timed::Ceiling, _) => next == Prefs { ceiling: next.ceiling, ..prefs },
            Msg::Length(Timed::DefaultGoal, _) => next == Prefs { default_goal: next.default_goal, ..prefs },
            Msg::StopAtGoal(_) => next == Prefs { stop_at_goal: next.stop_at_goal, ..prefs },
            _ => false,
        },
{
}

/// A length typed under its floor is never applied: the screen keeps it and asks for nothing.
pub proof fn law_a_length_under_its_floor_is_not_applied(v: SettingsScreenView, prefs: Prefs, which: Timed, seconds: u64, first_weekday: Weekday)
    requires
        seconds < least_of(which),
    ensures
        settings_updated(v, prefs, Msg::Length(which, seconds), first_weekday).1 is None,
        settings_updated(v, prefs, Msg::Length(which, seconds), first_weekday).0.short == Some((which, seconds)),
{
}

} // verus!
