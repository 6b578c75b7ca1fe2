//! What a person can set about qfocus itself, and what applies until they do.
//!
//! The values here drive the calculations, not the records: the day a session is grouped under,
//! the week a goal runs over, when silence counts as being away, when a session is flagged as
//! forgotten, and what the goal field suggests. Changing one regroups what is shown and touches
//! no file of records.
//!
//! They live in the settings file the framework keeps, under keys of qfocus's own beside the
//! framework's. A schema says what each key may hold, so a file edited by hand is checked and,
//! with self-healing, repaired with a backup; a value that is the default is never written, so the
//! file holds only what was chosen.

use vstd::prelude::*;

use qframe::storage::{Schema, SettingKind};

use crate::store::paths::{padded, push_padded, trim, trimmed};
use crate::text::{chars_of, parse_unsigned, string_of, unsigned_value};

verus! {

#[verifier::external_type_specification]
#[verifier::external_body]
pub struct ExSettings(qframe::storage::Settings);

#[verifier::external_type_specification]
#[verifier::external_body]
pub struct ExSchema(Schema);

/// The key of the day a week starts on: a weekday name in English. Without it the week starts
/// where the language's calendar starts it.
pub const WEEK_START: &'static str = "week-start";
/// The key of the hour the day turns at: `hh:mm`, midnight by default.
pub const DAY_ROLLOVER: &'static str = "day-rollover";
/// The key of the idle threshold in seconds; fifteen minutes by default.
pub const IDLE_AFTER: &'static str = "idle-after";
/// The key of the session ceiling in seconds; twelve hours by default.
pub const CEILING: &'static str = "ceiling";
/// The key of the stop-at-goal flag; off by default.
pub const STOP_AT_GOAL: &'static str = "stop-at-goal";
/// The key of the goal the goal field suggests, in seconds; one hour by default.
pub const DEFAULT_GOAL: &'static str = "default-goal";

/// The shortest idle threshold, in seconds: one minute.
pub const IDLE_LEAST: i64 = 60;
/// The longest idle threshold, in seconds: a day.
pub const IDLE_MOST: i64 = 86_400;
/// The lowest ceiling, in seconds: an hour.
pub const CEILING_LEAST: i64 = 3_600;
/// The highest ceiling, in seconds: a week.
pub const CEILING_MOST: i64 = 604_800;
/// The shortest suggested goal, in seconds: a minute.
pub const GOAL_LEAST: i64 = 60;
/// The longest suggested goal, in seconds: what a goal can hold at all.
pub const GOAL_MOST: i64 = 4_294_967_295;

/// A day of the week.
#[derive(Debug, Clone, Copy, PartialEq, Eq, Structural)]
pub enum Weekday {
    Monday,
    Tuesday,
    Wednesday,
    Thursday,
    Friday,
    Saturday,
    Sunday,
}

/// The name a weekday is written under in the settings file.
pub open spec fn weekday_word(day: Weekday) -> Seq<char> {
    match day {
        Weekday::Monday => "monday"@,
        Weekday::Tuesday => "tuesday"@,
        Weekday::Wednesday => "wednesday"@,
        Weekday::Thursday => "thursday"@,
        Weekday::Friday => "friday"@,
        Weekday::Saturday => "saturday"@,
        Weekday::Sunday => "sunday"@,
    }
}

/// The weekday a name in the settings file stands for.
pub open spec fn weekday_named(word: Seq<char>) -> Option<Weekday> {
    if word == "monday"@ {
        Some(Weekday::Monday)
    } else if word == "tuesday"@ {
        Some(Weekday::Tuesday)
    } else if word == "wednesday"@ {
        Some(Weekday::Wednesday)
    } else if word == "thursday"@ {
        Some(Weekday::Thursday)
    } else if word == "friday"@ {
        Some(Weekday::Friday)
    } else if word == "saturday"@ {
        Some(Weekday::Saturday)
    } else if word == "sunday"@ {
        Some(Weekday::Sunday)
    } else {
        None
    }
}

/// The weekday numbered `n`, 1 for Monday up to 7 for Sunday (ISO 8601).
pub open spec fn weekday_numbered(n: int) -> Option<Weekday> {
    if n == 1 {
        Some(Weekday::Monday)
    } else if n == 2 {
        Some(Weekday::Tuesday)
    } else if n == 3 {
        Some(Weekday::Wednesday)
    } else if n == 4 {
        Some(Weekday::Thursday)
    } else if n == 5 {
        Some(Weekday::Friday)
    } else if n == 6 {
        Some(Weekday::Saturday)
    } else if n == 7 {
        Some(Weekday::Sunday)
    } else {
        None
    }
}

/// The ISO number of a weekday.
pub open spec fn weekday_number(day: Weekday) -> int {
    match day {
        Weekday::Monday => 1,
        Weekday::Tuesday => 2,
        Weekday::Wednesday => 3,
        Weekday::Thursday => 4,
        Weekday::Friday => 5,
        Weekday::Saturday => 6,
        Weekday::Sunday => 7,
    }
}

impl Weekday {
    /// 1 for Monday up to 7 for Sunday (ISO 8601).
    pub fn number(self) -> (n: u8)
        ensures
            n == weekday_number(self),
    {
        match self {
            Weekday::Monday => 1,
            Weekday::Tuesday => 2,
            Weekday::Wednesday => 3,
            Weekday::Thursday => 4,
            Weekday::Friday => 5,
            Weekday::Saturday => 6,
            Weekday::Sunday => 7,
        }
    }

    /// The weekday numbered `number` (1 Monday to 7 Sunday).
    pub fn from_number(number: u8) -> (day: Option<Weekday>)
        ensures
            day == weekday_numbered(number as int),
    {
        match number {
            1 => Some(Weekday::Monday),
            2 => Some(Weekday::Tuesday),
            3 => Some(Weekday::Wednesday),
            4 => Some(Weekday::Thursday),
            5 => Some(Weekday::Friday),
            6 => Some(Weekday::Saturday),
            7 => Some(Weekday::Sunday),
            _ => None,
        }
    }

    /// The name the weekday is written under in the settings file.
    pub fn name(self) -> (name: &'static str)
        ensures
            name@ == weekday_word(self),
    {
        let name = match self {
            Weekday::Monday => "monday",
            Weekday::Tuesday => "tuesday",
            Weekday::Wednesday => "wednesday",
            Weekday::Thursday => "thursday",
            Weekday::Friday => "friday",
            Weekday::Saturday => "saturday",
            Weekday::Sunday => "sunday",
        };
        name
    }

    /// The weekday written under `name` in the settings file, if any.
    pub fn named(name: &str) -> (day: Option<Weekday>)
        ensures
            day == weekday_named(name@),
    {
        let chars = chars_of(name);
        if crate::text::chars_are(chars.as_slice(), "monday") {
            Some(Weekday::Monday)
        } else if crate::text::chars_are(chars.as_slice(), "tuesday") {
            Some(Weekday::Tuesday)
        } else if crate::text::chars_are(chars.as_slice(), "wednesday") {
            Some(Weekday::Wednesday)
        } else if crate::text::chars_are(chars.as_slice(), "thursday") {
            Some(Weekday::Thursday)
        } else if crate::text::chars_are(chars.as_slice(), "friday") {
            Some(Weekday::Friday)
        } else if crate::text::chars_are(chars.as_slice(), "saturday") {
            Some(Weekday::Saturday)
        } else if crate::text::chars_are(chars.as_slice(), "sunday") {
            Some(Weekday::Sunday)
        } else {
            None
        }
    }
}

/// The first day of the week a language's calendar gives as the text `number`: its ISO number,
/// spaces around it allowed; Monday, as in the ISO week, when the text names no weekday.
pub open spec fn first_weekday(number: Seq<char>) -> Weekday {
    match unsigned_value(trimmed(number)) {
        Some(n) => if n <= 255 {
            match weekday_numbered(n) {
                Some(day) => day,
                None => Weekday::Monday,
            }
        } else {
            Weekday::Monday
        },
        None => Weekday::Monday,
    }
}

/// The first day of the week a language's calendar gives as the text `number`, such as the
/// framework's `quvyta.date.first-weekday` message; Monday where it names none.
pub fn week_start_of_text(number: &str) -> (day: Weekday)
    ensures
        day == first_weekday(number@),
{
    let chars = chars_of(number);
    let text = trim(chars.as_slice());
    match parse_unsigned(text.as_slice(), 255) {
        Some(n) => match Weekday::from_number(n as u8) {
            Some(day) => day,
            None => Weekday::Monday,
        },
        None => Weekday::Monday,
    }
}

/// `qframe::i18n::translate_active` for the key `quvyta.date.first-weekday`, which is what the
/// framework's `t!` writes: the active language's text for the first day of the week. It depends
/// on the language the program runs in, so nothing is promised of it.
#[verifier::external_body]
fn first_weekday_message() -> String {
    qframe::i18n::translate_active("quvyta.date.first-weekday", &[])
}

/// The first day of the week in the active language, as the framework's calendar reads it;
/// Monday where no language is in force, as in the ISO week.
pub fn language_week_start() -> (day: Weekday)
    ensures
        exists|text: Seq<char>| day == first_weekday(text),
{
    let text = first_weekday_message();
    week_start_of_text(text.as_str())
}

/// A time of day on a 24-hour clock, with no date and no time zone.
#[derive(Debug, Clone, Copy, PartialEq, Eq, Structural)]
pub struct TimeOfDay {
    /// Hour, 0 to 23.
    pub hour: u8,
    /// Minute, 0 to 59.
    pub minute: u8,
    /// Second, 0 to 59.
    pub second: u8,
}

/// Seconds from midnight to `time`.
pub open spec fn seconds_of(time: TimeOfDay) -> int {
    time.hour * 3_600 + time.minute * 60 + time.second
}

/// Midnight.
pub open spec fn midnight() -> TimeOfDay {
    TimeOfDay { hour: 0, minute: 0, second: 0 }
}

/// The value of one part of a time: one or two ASCII digits, at most `largest`.
pub open spec fn time_part(part: Seq<char>, largest: int) -> Option<u8> {
    if 1 <= part.len() <= 2 && crate::text::all_digits(part) && crate::text::digits_value(part) <= largest {
        Some(crate::text::digits_value(part) as u8)
    } else {
        None
    }
}

/// What the framework reads from `text` as a time of day: `h:mm` or `h:mm:ss`, each part one or
/// two digits and in range, spaces around the whole ignored, a missing second zero.
pub open spec fn time_read(text: Seq<char>) -> Option<TimeOfDay> {
    let parts = crate::text::split_on(trimmed(text), ':');
    if parts.len() < 2 || parts.len() > 3 {
        None
    } else {
        let second = if parts.len() == 3 {
            time_part(parts[2], 59)
        } else {
            Some(0u8)
        };
        match (time_part(parts[0], 23), time_part(parts[1], 59), second) {
            (Some(hour), Some(minute), Some(second)) => Some(TimeOfDay { hour, minute, second }),
            _ => None,
        }
    }
}

/// `TimeOfDay::parse` of the framework: `h:mm` or `h:mm:ss` with every part in range and at most
/// two digits; spaces around the text are ignored and a missing second is zero. An out-of-range
/// part such as `24:00` gives `None`.
#[verifier::external_body]
fn read_time_of_day(text: &str) -> (time: Option<TimeOfDay>)
    ensures
        time == time_read(text@),
{
    qframe::date::TimeOfDay::parse(text).map(|t| TimeOfDay { hour: t.hour, minute: t.minute, second: t.second })
}

impl TimeOfDay {
    /// The time `hour:minute:second`; each part is capped at its largest value.
    pub fn new(hour: u8, minute: u8, second: u8) -> (time: TimeOfDay)
        ensures
            time == (TimeOfDay {
                hour: if hour > 23 { 23 } else { hour },
                minute: if minute > 59 { 59 } else { minute },
                second: if second > 59 { 59 } else { second },
            }),
    {
        TimeOfDay {
            hour: if hour > 23 { 23 } else { hour },
            minute: if minute > 59 { 59 } else { minute },
            second: if second > 59 { 59 } else { second },
        }
    }

    /// Seconds from midnight to this time.
    pub fn seconds_since_midnight(&self) -> (seconds: u32)
        ensures
            seconds == seconds_of(*self),
    {
        self.hour as u32 * 3_600 + self.minute as u32 * 60 + self.second as u32
    }

    /// Reads `h:mm` or `h:mm:ss` with every part in range, as the settings file holds it.
    pub fn parse(text: &str) -> (time: Option<TimeOfDay>)
        ensures
            time == time_read(text@),
    {
        read_time_of_day(text)
    }
}

/// What the settings hold under a key, as far as the preferences read it.
pub enum Held {
    /// `true` or `false`.
    Flag(bool),
    /// A whole number.
    Whole(i64),
    /// Text.
    Text(Seq<char>),
    /// A number with a fraction, or a list.
    Other,
}

/// What `settings` hold, key by key: the value the framework finds first under each key.
pub uninterp spec fn settings_held(settings: qframe::storage::Settings) -> Map<Seq<char>, Held>;

/// The text under `key`, when it holds text.
pub open spec fn text_held(held: Map<Seq<char>, Held>, key: Seq<char>) -> Option<Seq<char>> {
    if held.dom().contains(key) {
        match held[key] {
            Held::Text(text) => Some(text),
            _ => None,
        }
    } else {
        None
    }
}

/// The whole number under `key`, when it holds one.
pub open spec fn integer_held(held: Map<Seq<char>, Held>, key: Seq<char>) -> Option<i64> {
    if held.dom().contains(key) {
        match held[key] {
            Held::Whole(value) => Some(value),
            _ => None,
        }
    } else {
        None
    }
}

/// The flag under `key`, or `default` when it holds none.
pub open spec fn flag_held(held: Map<Seq<char>, Held>, key: Seq<char>, default: bool) -> bool {
    if held.dom().contains(key) {
        match held[key] {
            Held::Flag(value) => value,
            _ => default,
        }
    } else {
        default
    }
}

/// `Settings::get::<String>`: the text stored under `key`; `None` when the key is missing or
/// holds something else.
#[verifier::external_body]
fn stored_text(settings: &qframe::storage::Settings, key: &str) -> (text: Option<String>)
    ensures
        match text {
            Some(text) => text_held(settings_held(*settings), key@) == Some(text@),
            None => text_held(settings_held(*settings), key@) is None,
        },
{
    settings.get::<String>(key)
}

/// `Settings::get::<i64>`: the whole number stored under `key`; `None` when the key is missing
/// or holds something else.
#[verifier::external_body]
fn stored_integer(settings: &qframe::storage::Settings, key: &str) -> (value: Option<i64>)
    ensures
        value == integer_held(settings_held(*settings), key@),
{
    settings.get::<i64>(key)
}

/// `Settings::get_or` for a flag: the flag stored under `key`, or `default` when the key is
/// missing or holds something else.
#[verifier::external_body]
fn stored_flag(settings: &qframe::storage::Settings, key: &str, default: bool) -> (value: bool)
    ensures
        value == flag_held(settings_held(*settings), key@, default),
{
    settings.get_or(key, default)
}

/// `Settings::set` with text: `key` holds `value` afterwards and nothing else changes.
#[verifier::external_body]
fn store_text(settings: &mut qframe::storage::Settings, key: &str, value: String)
    ensures
        settings_held(*final(settings)) == settings_held(*old(settings)).insert(key@, Held::Text(value@)),
{
    settings.set(key, value);
}

/// `Settings::set` with a whole number: `key` holds `value` afterwards and nothing else changes.
#[verifier::external_body]
fn store_integer(settings: &mut qframe::storage::Settings, key: &str, value: i64)
    ensures
        settings_held(*final(settings)) == settings_held(*old(settings)).insert(key@, Held::Whole(value)),
{
    settings.set(key, value);
}

/// `Settings::set` with a flag: `key` holds `value` afterwards and nothing else changes.
#[verifier::external_body]
fn store_flag(settings: &mut qframe::storage::Settings, key: &str, value: bool)
    ensures
        settings_held(*final(settings)) == settings_held(*old(settings)).insert(key@, Held::Flag(value)),
{
    settings.set(key, value);
}

/// `Settings::remove`: `key` holds nothing afterwards and nothing else changes.
#[verifier::external_body]
fn forget(settings: &mut qframe::storage::Settings, key: &str)
    ensures
        settings_held(*final(settings)) == settings_held(*old(settings)).remove(key@),
{
    settings.remove(key);
}

/// The preferences of the application.
#[derive(Debug, Clone, Copy, PartialEq, Eq, Structural)]
pub struct Prefs {
    /// The day a week starts on, for the week windows of goals and charts, when one was chosen;
    /// `None` follows the active language, as the framework's calendar does.
    pub week_start: Option<Weekday>,
    /// The hour the day turns at; sessions before it belong to the day before.
    pub rollover: TimeOfDay,
    /// How long the terminal may go without input before the work is idle, in seconds.
    pub idle_after: u64,
    /// Seconds of work past which a session is flagged as forgotten.
    pub ceiling: u32,
    /// Whether the counter stops by itself when a goal or a countdown is reached.
    pub stop_at_goal: bool,
    /// Seconds the goal field suggests for a row that has no goal yet.
    pub default_goal: u32,
}

/// The language's week, midnight, fifteen minutes, twelve hours, no stopping, one hour.
pub open spec fn default_prefs() -> Prefs {
    Prefs {
        week_start: None,
        rollover: midnight(),
        idle_after: 900,
        ceiling: 43_200,
        stop_at_goal: false,
        default_goal: 3_600,
    }
}

impl Default for Prefs {
    /// The language's week, midnight, fifteen minutes, twelve hours, no stopping, one hour.
    fn default() -> (prefs: Self)
        ensures
            prefs == default_prefs(),
    {
        Prefs {
            week_start: None,
            rollover: TimeOfDay { hour: 0, minute: 0, second: 0 },
            idle_after: 900,
            ceiling: 43_200,
            stop_at_goal: false,
            default_goal: 3_600,
        }
    }
}

/// The seconds under `key` when they lie in `least..=most`, else `default`.
pub open spec fn seconds_held(held: Map<Seq<char>, Held>, key: Seq<char>, least: int, most: int, default: int) -> int {
    match integer_held(held, key) {
        Some(seconds) => if least <= seconds <= most {
            seconds as int
        } else {
            default
        },
        None => default,
    }
}

/// The preferences settings holding `held` give: a key that is missing, or holds what the
/// schema would not accept, gives its default.
pub open spec fn prefs_from(held: Map<Seq<char>, Held>) -> Prefs {
    Prefs {
        week_start: match text_held(held, WEEK_START@) {
            Some(name) => weekday_named(name),
            None => None,
        },
        rollover: match text_held(held, DAY_ROLLOVER@) {
            Some(text) => match time_read(text) {
                Some(time) => time,
                None => midnight(),
            },
            None => midnight(),
        },
        idle_after: seconds_held(held, IDLE_AFTER@, IDLE_LEAST as int, IDLE_MOST as int, 900) as u64,
        ceiling: seconds_held(held, CEILING@, CEILING_LEAST as int, CEILING_MOST as int, 43_200) as u32,
        stop_at_goal: flag_held(held, STOP_AT_GOAL@, false),
        default_goal: seconds_held(held, DEFAULT_GOAL@, GOAL_LEAST as int, GOAL_MOST as int, 3_600) as u32,
    }
}

/// `held` with `value` under `key`, or without the key when the value `is_default`.
pub open spec fn kept(held: Map<Seq<char>, Held>, key: Seq<char>, value: Held, is_default: bool) -> Map<
    Seq<char>,
    Held,
> {
    if is_default {
        held.remove(key)
    } else {
        held.insert(key, value)
    }
}

/// The rollover as the settings file holds it: `hh:mm`.
pub open spec fn rollover_text(time: TimeOfDay) -> Seq<char> {
    padded(time.hour as int, 2) + seq![':'] + padded(time.minute as int, 2)
}

/// The idle threshold as the settings file holds it: the seconds, or the largest whole number
/// for more than fits.
pub open spec fn idle_number(seconds: u64) -> i64 {
    if seconds > i64::MAX {
        i64::MAX
    } else {
        seconds as i64
    }
}

/// What settings holding `held` hold once `prefs` are written into them: every preference that
/// is its default taken out, every other one stored.
pub open spec fn written(held: Map<Seq<char>, Held>, prefs: Prefs) -> Map<Seq<char>, Held> {
    let defaults = default_prefs();
    let name = match prefs.week_start {
        Some(day) => weekday_word(day),
        None => "monday"@,
    };
    let a = kept(held, WEEK_START@, Held::Text(name), prefs.week_start == defaults.week_start);
    let b = kept(a, DAY_ROLLOVER@, Held::Text(rollover_text(prefs.rollover)), prefs.rollover == defaults.rollover);
    let c = kept(b, IDLE_AFTER@, Held::Whole(idle_number(prefs.idle_after)), prefs.idle_after == defaults.idle_after);
    let d = kept(c, CEILING@, Held::Whole(prefs.ceiling as i64), prefs.ceiling == defaults.ceiling);
    let e = kept(d, STOP_AT_GOAL@, Held::Flag(prefs.stop_at_goal), prefs.stop_at_goal == defaults.stop_at_goal);
    kept(e, DEFAULT_GOAL@, Held::Whole(prefs.default_goal as i64), prefs.default_goal == defaults.default_goal)
}

/// The seconds stored under `key` when they lie in `least..=most`, else `default`.
fn seconds(settings: &qframe::storage::Settings, key: &str, least: i64, most: i64, default: u64) -> (value: u64)
    requires
        least >= 0,
        default <= u64::MAX,
    ensures
        value == seconds_held(settings_held(*settings), key@, least as int, most as int, default as int),
{
    match stored_integer(settings, key) {
        Some(seconds) => if least <= seconds && seconds <= most {
            seconds as u64
        } else {
            default
        },
        None => default,
    }
}

/// Stores `value` under `key` as text, or removes the key when the value `is_default`.
fn keep_text(settings: &mut qframe::storage::Settings, key: &str, value: String, is_default: bool)
    ensures
        settings_held(*final(settings)) == kept(settings_held(*old(settings)), key@, Held::Text(value@), is_default),
{
    if is_default {
        forget(settings, key);
    } else {
        store_text(settings, key, value);
    }
}

/// Stores `value` under `key` as a whole number, or removes the key when the value `is_default`.
fn keep_integer(settings: &mut qframe::storage::Settings, key: &str, value: i64, is_default: bool)
    ensures
        settings_held(*final(settings)) == kept(settings_held(*old(settings)), key@, Held::Whole(value), is_default),
{
    if is_default {
        forget(settings, key);
    } else {
        store_integer(settings, key, value);
    }
}

/// Stores `value` under `key` as a flag, or removes the key when the value `is_default`.
fn keep_flag(settings: &mut qframe::storage::Settings, key: &str, value: bool, is_default: bool)
    ensures
        settings_held(*final(settings)) == kept(settings_held(*old(settings)), key@, Held::Flag(value), is_default),
{
    if is_default {
        forget(settings, key);
    } else {
        store_flag(settings, key, value);
    }
}

impl Prefs {
    /// The day the week starts on: the chosen one, or the active language's.
    pub fn week_starts_on(&self) -> (day: Weekday)
        ensures
            self.week_start is Some ==> day == self.week_start.unwrap(),
    {
        match self.week_start {
            Some(day) => day,
            None => language_week_start(),
        }
    }

    /// The day the week starts on: the chosen one, or `language`, the first day of the week of
    /// the active language.
    pub fn week_starts_on_given(&self, language: Weekday) -> (day: Weekday)
        ensures
            day == match self.week_start {
                Some(day) => day,
                None => language,
            },
    {
        match self.week_start {
            Some(day) => day,
            None => language,
        }
    }

    /// The preferences `settings` hold; a key that is missing, or holds what the schema would
    /// not accept, gives its default.
    pub fn from_settings(settings: &qframe::storage::Settings) -> (prefs: Self)
        ensures
            prefs == prefs_from(settings_held(*settings)),
    {
        let week_start = match stored_text(settings, WEEK_START) {
            Some(name) => Weekday::named(name.as_str()),
            None => None,
        };
        let rollover = match stored_text(settings, DAY_ROLLOVER) {
            Some(text) => match TimeOfDay::parse(text.as_str()) {
                Some(time) => time,
                None => TimeOfDay { hour: 0, minute: 0, second: 0 },
            },
            None => TimeOfDay { hour: 0, minute: 0, second: 0 },
        };
        let idle_after = seconds(settings, IDLE_AFTER, IDLE_LEAST, IDLE_MOST, 900);
        let ceiling = seconds(settings, CEILING, CEILING_LEAST, CEILING_MOST, 43_200);
        let stop_at_goal = stored_flag(settings, STOP_AT_GOAL, false);
        let default_goal = seconds(settings, DEFAULT_GOAL, GOAL_LEAST, GOAL_MOST, 3_600);
        Prefs {
            week_start,
            rollover,
            idle_after,
            ceiling: ceiling as u32,
            stop_at_goal,
            default_goal: default_goal as u32,
        }
    }

    /// Writes these preferences into `settings`: a value that is the default is taken out of the
    /// file rather than written, so the file holds only what was chosen.
    pub fn write(&self, settings: &mut qframe::storage::Settings)
        ensures
            settings_held(*final(settings)) == written(settings_held(*old(settings)), *self),
    {
        let name = match self.week_start {
            Some(day) => day.name(),
            None => "monday",
        };
        keep_text(settings, WEEK_START, name.to_owned(), self.week_start.is_none());
        let mut rollover: Vec<char> = Vec::new();
        push_padded(&mut rollover, self.rollover.hour as i64, 2);
        rollover.push(':');
        push_padded(&mut rollover, self.rollover.minute as i64, 2);
        assert(rollover@ =~= rollover_text(self.rollover));
        let at_midnight = self.rollover.hour == 0 && self.rollover.minute == 0 && self.rollover.second == 0;
        keep_text(settings, DAY_ROLLOVER, string_of(&rollover), at_midnight);
        let idle: i64 = if self.idle_after > i64::MAX as u64 {
            i64::MAX
        } else {
            self.idle_after as i64
        };
        keep_integer(settings, IDLE_AFTER, idle, self.idle_after == 900);
        keep_integer(settings, CEILING, self.ceiling as i64, self.ceiling == 43_200);
        keep_flag(settings, STOP_AT_GOAL, self.stop_at_goal, !self.stop_at_goal);
        keep_integer(settings, DEFAULT_GOAL, self.default_goal as i64, self.default_goal == 3_600);
    }
}

/// Whether `text` reads as a time of day, as the rollover key must.
pub fn is_time_of_day(text: &str) -> (valid: bool)
    ensures
        valid == time_read(text@) is Some,
{
    TimeOfDay::parse(text).is_some()
}

/// Whether `value` lies in `least..=most`.
pub fn within_bounds(value: i64, least: i64, most: i64) -> (inside: bool)
    ensures
        inside == (least <= value && value <= most),
{
    least <= value && value <= most
}

/// What a key of the settings schema lets the file hold, and what stands in for a value it
/// refuses.
pub enum KeyRule {
    /// Any text; the default.
    Text(Seq<char>),
    /// One text of the choices; the default, or none for an optional key, whose refused value
    /// is taken out.
    Choice(Seq<Seq<char>>, Option<Seq<char>>),
    /// `true` or `false`; the default.
    Flag(bool),
    /// Text that reads as a time of day, as [`time_read`] decides; the default.
    TimeOfDay(Seq<char>),
    /// A whole number from the first bound to the second; the default.
    Within(i64, i64, i64),
}

/// What `schema` holds, key by key: the rule declared last for each key, since declaring a key
/// again replaces its earlier rule.
pub uninterp spec fn schema_rules(schema: Schema) -> Map<Seq<char>, KeyRule>;

/// The rules the framework reads itself: theme and language (any text; `monochrome` and `en`),
/// icons (`auto`, `nerd`, `unicode` or `ascii`; `auto`), reduced motion (`false`), the pillar
/// (`thick` or `thin`; `thick`) and slide (`true`).
pub open spec fn builtin_rules() -> Map<Seq<char>, KeyRule> {
    Map::empty().insert("theme"@, KeyRule::Text("monochrome"@)).insert("language"@, KeyRule::Text("en"@)).insert(
        "icons"@,
        KeyRule::Choice(seq!["auto"@, "nerd"@, "unicode"@, "ascii"@], Some("auto"@)),
    ).insert("reduced-motion"@, KeyRule::Flag(false)).insert(
        "pillar"@,
        KeyRule::Choice(seq!["thick"@, "thin"@], Some("thick"@)),
    ).insert("slide"@, KeyRule::Flag(true))
}

/// `Schema::builtin`: the framework's own keys with their defaults, as [`builtin_rules`] lists
/// them.
#[verifier::external_body]
fn builtin_schema() -> (schema: Schema)
    ensures
        schema_rules(schema) == builtin_rules(),
{
    Schema::builtin()
}

/// The texts of `choices`.
pub open spec fn texts_of(choices: Seq<String>) -> Seq<Seq<char>> {
    choices.map_values(|choice: String| choice@)
}

/// `Schema::optional` with `SettingKind::choice`: `schema` with a rule for `key` that accepts one
/// of `choices` and has no default, so a value the rule refuses is taken out; any earlier rule of
/// `key` is replaced.
#[verifier::external_body]
fn with_optional_choice(schema: Schema, key: &str, choices: Vec<String>) -> (with: Schema)
    ensures
        schema_rules(with) == schema_rules(schema).insert(key@, KeyRule::Choice(texts_of(choices@), None)),
{
    schema.optional(key, SettingKind::choice(choices))
}

/// `Schema::check` for text: `schema` with a rule for `key` that accepts text reading as a time
/// of day, as [`is_time_of_day`] decides, and puts `default` in place of anything else; any
/// earlier rule of `key` is replaced.
#[verifier::external_body]
fn with_time_check(schema: Schema, key: &str, default: String) -> (with: Schema)
    ensures
        schema_rules(with) == schema_rules(schema).insert(key@, KeyRule::TimeOfDay(default@)),
{
    schema.check(key, default, |text: &String| is_time_of_day(text.as_str()))
}

/// `Schema::check` for a whole number: `schema` with a rule for `key` that accepts a number in
/// `least..=most`, as [`within_bounds`] decides, and puts `default` in place of anything else;
/// any earlier rule of `key` is replaced.
#[verifier::external_body]
fn with_seconds_check(schema: Schema, key: &str, default: i64, least: i64, most: i64) -> (with: Schema)
    ensures
        schema_rules(with) == schema_rules(schema).insert(key@, KeyRule::Within(default, least, most)),
{
    schema.check(key, default, move |seconds: &i64| within_bounds(*seconds, least, most))
}

/// `Schema::flag`: `schema` with a rule for `key` that accepts `true` or `false` and puts
/// `default` in place of anything else; any earlier rule of `key` is replaced.
#[verifier::external_body]
fn with_flag(schema: Schema, key: &str, default: bool) -> (with: Schema)
    ensures
        schema_rules(with) == schema_rules(schema).insert(key@, KeyRule::Flag(default)),
{
    schema.flag(key, default)
}

/// The weekday names, Monday first, as the settings file writes them.
pub open spec fn weekday_words() -> Seq<Seq<char>> {
    Seq::new(7, |i: int| weekday_word(weekday_numbered(i + 1).unwrap()))
}

/// What the settings file may hold: the framework's rules, then qfocus's own keys, each with
/// its default and its bounds; the week start has no default.
pub open spec fn prefs_rules() -> Map<Seq<char>, KeyRule> {
    builtin_rules().insert(WEEK_START@, KeyRule::Choice(weekday_words(), None)).insert(
        DAY_ROLLOVER@,
        KeyRule::TimeOfDay("00:00"@),
    ).insert(IDLE_AFTER@, KeyRule::Within(900, IDLE_LEAST, IDLE_MOST)).insert(
        CEILING@,
        KeyRule::Within(43_200, CEILING_LEAST, CEILING_MOST),
    ).insert(STOP_AT_GOAL@, KeyRule::Flag(false)).insert(DEFAULT_GOAL@, KeyRule::Within(3_600, GOAL_LEAST, GOAL_MOST))
}

/// The weekday names in the order a chooser lists them, Monday first.
pub fn weekday_names() -> (names: Vec<String>)
    ensures
        names@.len() == 7,
        forall|i: int| 0 <= i < 7 ==> #[trigger] names@[i]@ == weekday_word(weekday_numbered(i + 1).unwrap()),
{
    let mut names: Vec<String> = Vec::new();
    let mut n: u8 = 1;
    while n <= 7
        invariant
            1 <= n <= 8,
            names@.len() == n - 1,
            forall|i: int| 0 <= i < n - 1 ==> #[trigger] names@[i]@ == weekday_word(weekday_numbered(i + 1).unwrap()),
        decreases 8 - n,
    {
        let day = match Weekday::from_number(n) {
            Some(day) => day,
            None => Weekday::Monday,
        };
        names.push(day.name().to_owned());
        n = n + 1;
    }
    names
}

impl Prefs {
    /// What the settings file may hold: the framework's keys and qfocus's own, each with its
    /// default and its bounds. The week start has no default of its own: a value that cannot be
    /// read is taken out, and the week follows the language again.
    pub fn schema() -> (schema: Schema)
        ensures
            schema_rules(schema) == prefs_rules(),
    {
        let schema = builtin_schema();
        let names = weekday_names();
        assert(texts_of(names@) =~= weekday_words());
        let schema = with_optional_choice(schema, WEEK_START, names);
        let rollover = "00:00".to_owned();
        let schema = with_time_check(schema, DAY_ROLLOVER, rollover);
        let schema = with_seconds_check(schema, IDLE_AFTER, 900, IDLE_LEAST, IDLE_MOST);
        let schema = with_seconds_check(schema, CEILING, 43_200, CEILING_LEAST, CEILING_MOST);
        let schema = with_flag(schema, STOP_AT_GOAL, false);
        with_seconds_check(schema, DEFAULT_GOAL, 3_600, GOAL_LEAST, GOAL_MOST)
    }
}

/// Text without a separator is one part.
proof fn lemma_split_whole(text: Seq<char>, sep: char)
    requires
        forall|i: int| 0 <= i < text.len() ==> text[i] != sep,
    ensures
        crate::text::split_on(text, sep) == seq![text],
    decreases text.len(),
{
    if text.len() > 0 {
        lemma_split_whole(text.drop_last(), sep);
        assert(text[text.len() - 1] != sep);
        assert(text.drop_last().push(text.last()) =~= text);
        assert(seq![text.drop_last()].update(0, text.drop_last().push(text.last())) =~= seq![text]);
    } else {
        assert(text =~= Seq::<char>::empty());
    }
}

/// Text cut after a separator: the parts before it, then what follows it, when that holds no
/// separator.
proof fn lemma_split_after(x: Seq<char>, y: Seq<char>, sep: char)
    requires
        forall|i: int| 0 <= i < y.len() ==> y[i] != sep,
    ensures
        crate::text::split_on(x + seq![sep] + y, sep) == crate::text::split_on(x, sep).push(y),
    decreases y.len(),
{
    let text = x + seq![sep] + y;
    if y.len() == 0 {
        assert(text.drop_last() =~= x);
        assert(text.last() == sep);
        assert(y =~= Seq::<char>::empty());
    } else {
        lemma_split_after(x, y.drop_last(), sep);
        assert(text.drop_last() =~= x + seq![sep] + y.drop_last());
        assert(y.drop_last().push(y.last()) =~= y);
        assert(text.last() == y.last());
        assert(y[y.len() - 1] != sep);
        let parts = crate::text::split_on(x, sep).push(y.drop_last());
        assert(parts.update(parts.len() - 1, parts.last().push(text.last())) =~= crate::text::split_on(x, sep).push(y));
    }
}

/// `v` below a hundred written with at least two digits: two ASCII digits spelling `v`.
proof fn lemma_two_digits(v: nat)
    requires
        v < 100,
    ensures
        padded(v as int, 2).len() == 2,
        crate::text::all_digits(padded(v as int, 2)),
        crate::text::digits_value(padded(v as int, 2)) == v,
{
    let p = padded(v as int, 2);
    if v < 10 {
        assert(crate::text::decimal(v) == seq![crate::text::digit_char(v)]);
        crate::text::lemma_digit_char_value(v);
        assert(p =~= seq!['0', crate::text::digit_char(v)]);
        assert(p.drop_last() =~= seq!['0']);
        assert(seq!['0'].drop_last() =~= Seq::<char>::empty());
        assert(crate::text::digits_value(Seq::<char>::empty()) == 0);
        assert(crate::text::digit_value('0') == 0);
        assert(crate::text::digits_value(seq!['0']) == 0);
        assert(p.last() == crate::text::digit_char(v));
    } else {
        assert(crate::text::decimal(v / 10) == seq![crate::text::digit_char(v / 10)]);
        crate::text::lemma_digit_char_value(v / 10);
        crate::text::lemma_digit_char_value(v % 10);
        assert(p =~= seq![crate::text::digit_char(v / 10), crate::text::digit_char(v % 10)]);
        assert(p.drop_last() =~= seq![crate::text::digit_char(v / 10)]);
        assert(p.drop_last().drop_last() =~= Seq::<char>::empty());
        assert(crate::text::digits_value(Seq::<char>::empty()) == 0);
        assert(crate::text::digits_value(p.drop_last()) == v / 10);
        assert(p.last() == crate::text::digit_char(v % 10));
    }
}

/// A rollover written as `hh:mm` reads back as the same time, the second zero.
proof fn lemma_rollover_reads_back(time: TimeOfDay)
    requires
        time.hour <= 23,
        time.minute <= 59,
        time.second == 0,
    ensures
        time_read(rollover_text(time)) == Some(time),
{
    let a = padded(time.hour as int, 2);
    let b = padded(time.minute as int, 2);
    lemma_two_digits(time.hour as nat);
    lemma_two_digits(time.minute as nat);
    let text = rollover_text(time);
    assert(text =~= a + seq![':'] + b);
    assert(crate::text::is_digit(text[0]) && crate::text::is_digit(text[4])) by {
        assert(text[0] == a[0]);
        assert(text[4] == b[1]);
    }
    assert(trimmed(text) =~= text) by {
        assert(crate::store::paths::leading_white(text, 0) == 0);
        assert(crate::store::paths::trailing_end(text, 5, 0) == 5);
    }
    assert(forall|i: int| 0 <= i < a.len() ==> a[i] != ':') by {
        assert forall|i: int| 0 <= i < a.len() implies a[i] != ':' by {
            assert(crate::text::is_digit(a[i]));
        }
    }
    assert(forall|i: int| 0 <= i < b.len() ==> b[i] != ':') by {
        assert forall|i: int| 0 <= i < b.len() implies b[i] != ':' by {
            assert(crate::text::is_digit(b[i]));
        }
    }
    lemma_split_whole(a, ':');
    lemma_split_after(a, b, ':');
    assert(crate::text::split_on(text, ':') =~= seq![a, b]);
}

/// The weekday names read back as their weekdays.
proof fn lemma_weekday_words(day: Weekday)
    ensures
        weekday_named(weekday_word(day)) == Some(day),
{
    reveal_strlit("monday");
    reveal_strlit("tuesday");
    reveal_strlit("wednesday");
    reveal_strlit("thursday");
    reveal_strlit("friday");
    reveal_strlit("saturday");
    reveal_strlit("sunday");
    let (m, tu, w, th, f, sa, su) = ("monday"@, "tuesday"@, "wednesday"@, "thursday"@, "friday"@, "saturday"@, "sunday"@);
    assert(m[0] != f[0] && m[0] != su[0] && f[0] != su[0]);
    assert(th[0] != sa[0]);
    assert(m.len() != tu.len() && m.len() != w.len() && m.len() != th.len() && m.len() != sa.len());
    assert(tu.len() != w.len() && tu.len() != th.len() && tu.len() != f.len() && tu.len() != sa.len() && tu.len() != su.len());
    assert(w.len() != th.len() && w.len() != f.len() && w.len() != sa.len() && w.len() != su.len());
    assert(th.len() != f.len() && th.len() != su.len() && f.len() != sa.len() && sa.len() != su.len());
}

/// The six keys of the preferences are six different keys.
proof fn lemma_keys_differ()
    ensures
        WEEK_START@ != DAY_ROLLOVER@,
        WEEK_START@ != IDLE_AFTER@,
        WEEK_START@ != CEILING@,
        WEEK_START@ != STOP_AT_GOAL@,
        WEEK_START@ != DEFAULT_GOAL@,
        DAY_ROLLOVER@ != IDLE_AFTER@,
        DAY_ROLLOVER@ != CEILING@,
        DAY_ROLLOVER@ != STOP_AT_GOAL@,
        DAY_ROLLOVER@ != DEFAULT_GOAL@,
        IDLE_AFTER@ != CEILING@,
        IDLE_AFTER@ != STOP_AT_GOAL@,
        IDLE_AFTER@ != DEFAULT_GOAL@,
        CEILING@ != STOP_AT_GOAL@,
        CEILING@ != DEFAULT_GOAL@,
        STOP_AT_GOAL@ != DEFAULT_GOAL@,
{
    reveal_strlit("week-start");
    reveal_strlit("day-rollover");
    reveal_strlit("idle-after");
    reveal_strlit("ceiling");
    reveal_strlit("stop-at-goal");
    reveal_strlit("default-goal");
    assert(WEEK_START@.len() != DAY_ROLLOVER@.len());
    assert(WEEK_START@[0] != IDLE_AFTER@[0]);
    assert(WEEK_START@.len() != CEILING@.len());
    assert(WEEK_START@.len() != STOP_AT_GOAL@.len());
    assert(WEEK_START@.len() != DEFAULT_GOAL@.len());
    assert(DAY_ROLLOVER@[0] != IDLE_AFTER@[0]);
    assert(DAY_ROLLOVER@.len() != CEILING@.len());
    assert(DAY_ROLLOVER@[0] != STOP_AT_GOAL@[0]);
    assert(DAY_ROLLOVER@[2] != DEFAULT_GOAL@[2]);
    assert(IDLE_AFTER@.len() != CEILING@.len());
    assert(IDLE_AFTER@.len() != STOP_AT_GOAL@.len());
    assert(IDLE_AFTER@.len() != DEFAULT_GOAL@.len());
    assert(CEILING@.len() != STOP_AT_GOAL@.len());
    assert(CEILING@.len() != DEFAULT_GOAL@.len());
    assert(STOP_AT_GOAL@[0] != DEFAULT_GOAL@[0]);
}

/// Whatever the settings held before, preferences written into them read back as the same
/// preferences, as long as each lies where the schema keeps it: a rollover on the minute, an
/// idle threshold from a minute to a day, a ceiling from an hour to a week and a suggested goal
/// of at least a minute.
pub proof fn law_chosen_preferences_read_back_from_what_is_written(held: Map<Seq<char>, Held>, prefs: Prefs)
    requires
        prefs.rollover.hour <= 23,
        prefs.rollover.minute <= 59,
        prefs.rollover.second == 0,
        IDLE_LEAST <= prefs.idle_after <= IDLE_MOST,
        CEILING_LEAST <= prefs.ceiling <= CEILING_MOST,
        GOAL_LEAST <= prefs.default_goal,
    ensures
        prefs_from(written(held, prefs)) == prefs,
{
    lemma_keys_differ();
    if let Some(day) = prefs.week_start {
        lemma_weekday_words(day);
    }
    lemma_rollover_reads_back(prefs.rollover);
}

/// Preferences that are all their defaults leave none of their keys in the settings, whatever
/// was there before, and settings without the keys read as the defaults: a file that holds only
/// what was chosen.
pub proof fn law_the_defaults_are_not_written(held: Map<Seq<char>, Held>)
    ensures
        written(held, default_prefs()) == held.remove(WEEK_START@).remove(DAY_ROLLOVER@).remove(IDLE_AFTER@).remove(
            CEILING@,
        ).remove(STOP_AT_GOAL@).remove(DEFAULT_GOAL@),
        prefs_from(written(held, default_prefs())) == default_prefs(),
{
    lemma_keys_differ();
}

} // verus!
