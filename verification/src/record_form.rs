//! The record form: a session typed in by hand, a correction of one on disk, a lost focus
//! attached to a real one, or a duration over the ceiling fixed before the record is written.
//!
//! The form owns what is typed and checks it; nothing is saved until every check passes, and a
//! failed check is said beside its field. The date is held as the number of its day counted from
//! 1970-01-01 on the local calendar, the way the framework's calendar counts days, so when a
//! session starts is worked out here from the day, the time of day and the offset.

use vstd::prelude::*;

use qframe::widgets::DurationError;

use crate::arith::clamp_i64;
use crate::id::Id;
use crate::prefs::{TimeOfDay, seconds_of};
use crate::session::Session;
use crate::session::edit::{Changes, manual};
use crate::session::line::line_of;
use crate::span::work_of;
use crate::store::paths::{trim, trimmed};
use crate::store::sessions::{MAX_LINE_BYTES, append_of, byte_length, line_to_append, utf8_len};
use crate::text::{chars_of, string_of};
use crate::tree::{Category, Tree};

verus! {

#[verifier::external_type_specification]
#[verifier::external_body]
pub struct ExDurationError(DurationError);

/// `Clone` of the framework's reason a length could not be read, which its `derive` writes: the
/// copy is the same reason.
pub assume_specification[ <qframe::widgets::DurationError as core::clone::Clone>::clone ](
    error: &qframe::widgets::DurationError,
) -> (copy: qframe::widgets::DurationError)
    ensures
        copy == *error,
;

/// The most bytes a note may take in a record line.
pub const MAX_NOTE_BYTES: usize = 1024;

/// Seconds in a day.
pub const DAY: i64 = 86_400;

/// What the form is for.
#[derive(Debug, Clone, Copy, PartialEq, Eq, Structural)]
pub enum Purpose {
    /// A session typed in after the fact.
    Add,
    /// A correction of the session with this identifier.
    Correct(Id),
    /// The session with this identifier belongs to a focus that is gone; it is attached to one
    /// that exists.
    Attach(Id),
    /// The running counter went over the ceiling; its duration is fixed before it is recorded.
    Finish,
}

/// A field of the form.
#[derive(Debug, Clone, Copy, PartialEq, Eq, Structural)]
pub enum Field {
    /// The focus chooser.
    Focus,
    /// The date.
    Date,
    /// The start time.
    Start,
    /// The duration.
    Duration,
    /// The note.
    Note,
}

/// What is wrong with the duration.
#[derive(Debug, Clone, Copy, PartialEq, Eq, Structural)]
pub enum DurationProblem {
    /// No time at all.
    Zero,
    /// The session would end after now.
    EndsFuture,
}

/// What is wrong with the note.
#[derive(Debug, Clone, Copy, PartialEq, Eq, Structural)]
pub enum NoteProblem {
    /// The note takes more than [`MAX_NOTE_BYTES`].
    Long,
    /// The record line would take more than the line cap.
    LineLong,
}

/// Everything wrong with what was typed, field by field.
#[derive(Debug, Clone, Copy, PartialEq, Eq, Structural)]
pub struct Problems {
    /// No focus that the catalogue has is chosen.
    pub focus: bool,
    /// The session would start after now.
    pub start: bool,
    /// What is wrong with the duration, if anything.
    pub duration: Option<DurationProblem>,
    /// What is wrong with the note, if anything.
    pub note: Option<NoteProblem>,
}

/// The first field with a problem, in the order of the form: focus, start, duration, note.
pub open spec fn first_problem(p: Problems) -> Option<Field> {
    if p.focus {
        Some(Field::Focus)
    } else if p.start {
        Some(Field::Start)
    } else if p.duration is Some {
        Some(Field::Duration)
    } else if p.note is Some {
        Some(Field::Note)
    } else {
        None
    }
}

/// Whether nothing is wrong.
pub open spec fn no_problem(p: Problems) -> bool {
    !p.focus && !p.start && p.duration is None && p.note is None
}

impl Problems {
    /// Whether nothing is wrong.
    pub fn is_empty(&self) -> (empty: bool)
        ensures
            empty == no_problem(*self),
    {
        !self.focus && !self.start && self.duration.is_none() && self.note.is_none()
    }

    /// How many fields have a problem.
    pub fn len(&self) -> (count: usize)
        ensures
            count == (if self.focus { 1int } else { 0 }) + (if self.start { 1int } else { 0 }) + (if self.duration is Some { 1int } else { 0 })
                + (if self.note is Some { 1int } else { 0 }),
    {
        let mut count: usize = 0;
        if self.focus {
            count = count + 1;
        }
        if self.start {
            count = count + 1;
        }
        if self.duration.is_some() {
            count = count + 1;
        }
        if self.note.is_some() {
            count = count + 1;
        }
        count
    }

    /// Whether `field` has a problem.
    pub fn has(&self, field: Field) -> (found: bool)
        ensures
            found == match field {
                Field::Focus => self.focus,
                Field::Start => self.start,
                Field::Duration => self.duration is Some,
                Field::Note => self.note is Some,
                Field::Date => false,
            },
    {
        match field {
            Field::Focus => self.focus,
            Field::Start => self.start,
            Field::Duration => self.duration.is_some(),
            Field::Note => self.note.is_some(),
            Field::Date => false,
        }
    }

    /// The first field with a problem, where the keyboard goes when saving is refused.
    pub fn first(&self) -> (field: Option<Field>)
        ensures
            field == first_problem(*self),
    {
        if self.focus {
            Some(Field::Focus)
        } else if self.start {
            Some(Field::Start)
        } else if self.duration.is_some() {
            Some(Field::Duration)
        } else if self.note.is_some() {
            Some(Field::Note)
        } else {
            None
        }
    }
}

/// Something that happened on the form.
#[derive(Debug, Clone, PartialEq, Eq)]
pub enum Msg {
    /// An option of the focus chooser was chosen.
    Focus(usize),
    /// The date changed, as the number of its day counted from 1970-01-01.
    Date(i64),
    /// The start time changed.
    Start(TimeOfDay),
    /// The duration changed, in seconds.
    Duration(u64),
    /// A paste into the duration field could not be read.
    Rejected(DurationError),
    /// The note changed.
    Note(String),
    /// Save was asked for.
    Submit,
    /// The form was closed without saving.
    Cancel,
}

/// What the form hands back to the application.
#[derive(Debug, Clone, PartialEq, Eq)]
pub enum Outcome {
    /// Every check passed; this is what was typed.
    Save(Changes),
    /// The form was closed without saving.
    Cancel,
}

/// The state of the form.
#[derive(Debug, Clone)]
pub struct RecordForm {
    purpose: Purpose,
    focus: Option<Id>,
    /// The day, counted from 1970-01-01 on the local calendar.
    day: i64,
    start: TimeOfDay,
    /// The duration in seconds.
    duration: u64,
    note: String,
    offset_minutes: i16,
    /// Why the last paste into the duration field was not read, until the field changes.
    rejected: Option<DurationError>,
    /// Whether saving was tried; the checks are said beside the fields from then on.
    tried: bool,
}

/// The form as values.
pub struct RecordFormView {
    pub purpose: Purpose,
    pub focus: Option<Id>,
    pub day: i64,
    pub start: TimeOfDay,
    pub duration: u64,
    pub note: Seq<char>,
    pub offset_minutes: i16,
    pub rejected: Option<DurationError>,
    pub tried: bool,
}

impl View for RecordForm {
    type V = RecordFormView;

    closed spec fn view(&self) -> RecordFormView {
        RecordFormView {
            purpose: self.purpose,
            focus: self.focus,
            day: self.day,
            start: self.start,
            duration: self.duration,
            note: self.note@,
            offset_minutes: self.offset_minutes,
            rejected: self.rejected,
            tried: self.tried,
        }
    }
}

/// When a session starts that starts at `time` on the local day `day` in an offset of
/// `offset_minutes`, in seconds since the Unix epoch, as the framework's calendar works it out:
/// each step held to an `i64`.
pub open spec fn started_at(day: i64, time: TimeOfDay, offset_minutes: i16) -> i64 {
    clamp_i64(clamp_i64(clamp_i64(day * DAY) + seconds_of(time)) - offset_minutes * 60) as i64
}

/// The local day of the moment `seconds` in an offset of `offset_minutes`, counted from
/// 1970-01-01.
pub open spec fn day_of(seconds: i64, offset_minutes: i16) -> i64 {
    (clamp_i64(seconds + offset_minutes * 60) / (DAY as int)) as i64
}

/// The local time of day of the moment `seconds`.
pub open spec fn time_of(seconds: i64, offset_minutes: i16) -> TimeOfDay {
    let s = clamp_i64(seconds + offset_minutes * 60) % (DAY as int);
    TimeOfDay { hour: (s / 3_600) as u8, minute: (s / 60 % 60) as u8, second: (s % 60) as u8 }
}

/// When the form's session starts.
pub open spec fn form_started(v: RecordFormView) -> i64 {
    started_at(v.day, v.start, v.offset_minutes)
}

/// The form's seconds of work, as far as a span reaches.
pub open spec fn form_seconds(v: RecordFormView) -> u32 {
    if v.duration > u32::MAX {
        u32::MAX
    } else {
        v.duration as u32
    }
}

/// The focuses the first `n` focuses of a category offer: those not archived.
pub open spec fn shown_focuses(category: Category, n: int) -> Seq<Id>
    decreases n,
{
    if n <= 0 || n > category.focuses@.len() {
        Seq::empty()
    } else {
        let rest = shown_focuses(category, n - 1);
        let focus = category.focuses@[n - 1];
        if focus.archived {
            rest
        } else {
            rest.push(focus.id)
        }
    }
}

/// The focuses the first `n` categories offer: the focuses not archived of the categories not
/// archived.
pub open spec fn shown_upto(categories: Seq<Category>, n: int) -> Seq<Id>
    decreases n,
{
    if n <= 0 || n > categories.len() {
        Seq::empty()
    } else {
        let category = categories[n - 1];
        if category.archived {
            shown_upto(categories, n - 1)
        } else {
            shown_upto(categories, n - 1) + shown_focuses(category, category.focuses@.len() as int)
        }
    }
}

/// The focuses the chooser offers, in the order of the catalogue: every focus that is not
/// archived, and the one the record already has even when it is, so it can be kept.
pub open spec fn options_of(focus: Option<Id>, categories: Seq<Category>) -> Seq<Id> {
    let shown = shown_upto(categories, categories.len() as int);
    match focus {
        Some(own) => if !shown.contains(own) && crate::records::focus_known(categories, own) {
            shown.push(own)
        } else {
            shown
        },
        None => shown,
    }
}

/// The record a save would write for the form with `focus`, as values, for measuring its line.
pub open spec fn probe_of(v: RecordFormView, focus: Id, now: i64) -> crate::session::SessionView {
    let started = form_started(v);
    let seconds = form_seconds(v);
    crate::session::SessionView {
        id: Id::of(0),
        revision: 1,
        written: now,
        focus,
        started,
        offset_minutes: v.offset_minutes,
        ended: clamp_i64(started + seconds) as i64,
        spans: crate::session::edit::typed_spans(seconds),
        source: crate::session::Source::Manual,
        replaces: None,
        voids: None,
        continues: None,
        flags: Seq::empty(),
        note: trimmed(v.note),
    }
}

/// Everything wrong with the form against the catalogue and the wall clock `now`: no focus the
/// catalogue has, a start after now, no duration or an end after now, a note over its cap or a
/// record line over the line cap.
pub open spec fn problems_of(v: RecordFormView, categories: Seq<Category>, now: i64) -> Problems {
    let known = match v.focus {
        Some(id) => crate::records::focus_known(categories, id),
        None => false,
    };
    let started = form_started(v);
    let seconds = form_seconds(v);
    let note = trimmed(v.note);
    let probe_focus = if known { v.focus.unwrap() } else { Id::of(0) };
    Problems {
        focus: !known,
        start: started > now,
        duration: if seconds == 0 {
            Some(DurationProblem::Zero)
        } else if started <= now && clamp_i64(started + seconds) > now {
            Some(DurationProblem::EndsFuture)
        } else {
            None
        },
        note: if utf8_len(note, note.len() as int) > MAX_NOTE_BYTES {
            Some(NoteProblem::Long)
        } else if append_of(probe_of(v, probe_focus, now)) is Err {
            Some(NoteProblem::LineLong)
        } else {
            None
        },
    }
}

/// Whether `changes` hold what the form says, for `focus`.
pub open spec fn changes_hold(changes: Changes, v: RecordFormView, focus: Id) -> bool {
    &&& changes.focus == focus
    &&& changes.started == form_started(v)
    &&& changes.offset_minutes == v.offset_minutes
    &&& changes.seconds == form_seconds(v)
    &&& changes.note@ == trimmed(v.note)
}

/// `a + b`, held to an `i64`.
fn add_held(a: i64, b: i64) -> (sum: i64)
    ensures
        sum == clamp_i64(a + b),
{
    crate::arith::add_i64(a, b)
}

/// `day × seconds in a day`, held to an `i64`.
fn day_seconds(day: i64) -> (seconds: i64)
    ensures
        seconds == clamp_i64(day * DAY),
{
    let wide: i128 = day as i128 * DAY as i128;
    if wide > i64::MAX as i128 {
        i64::MAX
    } else if wide < i64::MIN as i128 {
        i64::MIN
    } else {
        wide as i64
    }
}

/// When a session starts that starts at `time` on the local day `day`.
fn start_of(day: i64, time: TimeOfDay, offset_minutes: i16) -> (started: i64)
    ensures
        started == started_at(day, time, offset_minutes),
{
    let base = day_seconds(day);
    let of_day: i64 = time.hour as i64 * 3_600 + time.minute as i64 * 60 + time.second as i64;
    let with_time = add_held(base, of_day);
    crate::arith::sub_i64(with_time, offset_minutes as i64 * 60)
}

/// The local day and time of day of the moment `seconds`.
fn local_of(seconds: i64, offset_minutes: i16) -> (found: (i64, TimeOfDay))
    ensures
        found.0 == day_of(seconds, offset_minutes),
        found.1 == time_of(seconds, offset_minutes),
{
    let local = add_held(seconds, offset_minutes as i64 * 60);
    let (day, rest): (i64, i64) = if local >= 0 {
        let l = local as u64;
        let day = (l / 86_400) as i64;
        let rest = (l % 86_400) as i64;
        (day, rest)
    } else {
        let m: u64 = (0i128 - local as i128) as u64;
        let q: u64 = m / 86_400;
        let r: u64 = m % 86_400;
        proof {
            assert(m == q * 86_400 + r) by (nonlinear_arith)
                requires
                    q == m / 86_400,
                    r == m % 86_400,
            ;
            assert(q <= 0x8000_0000_0000_0000u64 / 86_400) by (nonlinear_arith)
                requires
                    q == m / 86_400,
                    m <= 0x8000_0000_0000_0000u64,
            ;
        }
        if r == 0 {
            proof {
                assert(local as int / 86_400 == -(q as int) && local as int % 86_400 == 0) by (nonlinear_arith)
                    requires
                        local == -(m as int),
                        m == q * 86_400,
                ;
            }
            (0 - q as i64, 0)
        } else {
            proof {
                assert(local as int / 86_400 == -(q as int) - 1 && local as int % 86_400 == 86_400 - r) by (nonlinear_arith)
                    requires
                        local == -(m as int),
                        m == q * 86_400 + r,
                        0 < r < 86_400,
                ;
            }
            (0 - q as i64 - 1, 86_400 - r as i64)
        }
    };
    assert(0 <= rest < 86_400);
    (day, TimeOfDay { hour: (rest / 3_600) as u8, minute: (rest / 60 % 60) as u8, second: (rest % 60) as u8 })
}

/// What the form looks like once `msg` is applied, apart from saving: each field takes what was
/// typed, a new duration forgets a rejected paste, and a focus is chosen by its place among the
/// options, none when there is no option there.
pub open spec fn form_after(v: RecordFormView, categories: Seq<Category>, msg: Msg) -> RecordFormView {
    match msg {
        Msg::Focus(index) => RecordFormView {
            focus: if index < options_of(v.focus, categories).len() {
                Some(options_of(v.focus, categories)[index as int])
            } else {
                None
            },
            ..v
        },
        Msg::Date(day) => RecordFormView { day, ..v },
        Msg::Start(time) => RecordFormView { start: time, ..v },
        Msg::Duration(seconds) => RecordFormView { duration: seconds, rejected: None, ..v },
        Msg::Rejected(error) => RecordFormView { rejected: Some(error), ..v },
        Msg::Note(text) => RecordFormView { note: text@, ..v },
        Msg::Submit => RecordFormView { tried: true, ..v },
        Msg::Cancel => v,
    }
}

impl RecordForm {
    /// An empty form for a session typed in by hand, dated `now` in an offset of
    /// `offset_minutes`: today, this hour and minute, no duration, no focus.
    pub fn add(now: i64, offset_minutes: i16) -> (form: Self)
        ensures
            form@ == (RecordFormView {
                purpose: Purpose::Add,
                focus: None,
                day: day_of(now, offset_minutes),
                start: TimeOfDay { second: 0, ..time_of(now, offset_minutes) },
                duration: 0,
                note: Seq::empty(),
                offset_minutes,
                rejected: None,
                tried: false,
            }),
    {
        let (day, time) = local_of(now, offset_minutes);
        let form = RecordForm {
            purpose: Purpose::Add,
            focus: None,
            day,
            start: TimeOfDay { hour: time.hour, minute: time.minute, second: 0 },
            duration: 0,
            note: String::new(),
            offset_minutes,
            rejected: None,
            tried: false,
        };
        assert(form@.note =~= Seq::<char>::empty());
        form
    }

    /// A form filled from `session`, for `purpose`: its focus, its local day and time of start,
    /// its work and its note.
    pub fn of(purpose: Purpose, session: &Session) -> (form: Self)
        requires
            work_of(session.spans@) <= u64::MAX,
        ensures
            form@ == (RecordFormView {
                purpose,
                focus: Some(session.focus),
                day: day_of(session.started, session.offset_minutes),
                start: time_of(session.started, session.offset_minutes),
                duration: if work_of(session.spans@) > u32::MAX {
                    u32::MAX as u64
                } else {
                    work_of(session.spans@) as u64
                },
                note: session.note@,
                offset_minutes: session.offset_minutes,
                rejected: None,
                tried: false,
            }),
    {
        let (day, start) = local_of(session.started, session.offset_minutes);
        let changes = Changes::of(session);
        RecordForm {
            purpose,
            focus: Some(session.focus),
            day,
            start,
            duration: changes.seconds as u64,
            note: changes.note,
            offset_minutes: session.offset_minutes,
            rejected: None,
            tried: false,
        }
    }

    /// What the form is for.
    pub fn purpose(&self) -> (purpose: Purpose)
        ensures
            purpose == self@.purpose,
    {
        self.purpose
    }

    /// The field that takes the keyboard when the form opens: the duration when that is what is
    /// being fixed, else the focus chooser.
    pub fn first_field(&self) -> (field: Field)
        ensures
            field == (if self@.purpose == Purpose::Finish { Field::Duration } else { Field::Focus }),
    {
        match self.purpose {
            Purpose::Finish => Field::Duration,
            _ => Field::Focus,
        }
    }

    /// The focus chosen, if any.
    pub fn focus(&self) -> (focus: Option<Id>)
        ensures
            focus == self@.focus,
    {
        self.focus
    }

    /// The day, counted from 1970-01-01 on the local calendar.
    pub fn day(&self) -> (day: i64)
        ensures
            day == self@.day,
    {
        self.day
    }

    /// The start time.
    pub fn start(&self) -> (start: TimeOfDay)
        ensures
            start == self@.start,
    {
        self.start
    }

    /// The duration in seconds.
    pub fn duration(&self) -> (seconds: u64)
        ensures
            seconds == self@.duration,
    {
        self.duration
    }

    /// The note as typed.
    pub fn note(&self) -> (note: &str)
        ensures
            note@ == self@.note,
    {
        self.note.as_str()
    }

    /// The offset the form's times are read in.
    pub fn offset_minutes(&self) -> (offset: i16)
        ensures
            offset == self@.offset_minutes,
    {
        self.offset_minutes
    }

    /// Why the last paste into the duration field was not read, until the field changes.
    pub fn rejected(&self) -> (rejected: Option<&DurationError>)
        ensures
            match rejected {
                Some(error) => self@.rejected == Some(*error),
                None => self@.rejected is None,
            },
    {
        self.rejected.as_ref()
    }

    /// Whether saving was tried, so the checks are said beside the fields.
    pub fn tried(&self) -> (tried: bool)
        ensures
            tried == self@.tried,
    {
        self.tried
    }

    /// When the session starts, in seconds since the Unix epoch.
    pub fn started(&self) -> (started: i64)
        ensures
            started == form_started(self@),
    {
        start_of(self.day, self.start, self.offset_minutes)
    }

    /// Seconds of work, as far as a span reaches.
    pub fn seconds(&self) -> (seconds: u32)
        ensures
            seconds == form_seconds(self@),
    {
        if self.duration > u32::MAX as u64 {
            u32::MAX
        } else {
            self.duration as u32
        }
    }

    /// When the session ends: its local day and time of day in the form's offset.
    pub fn ends(&self) -> (end: (i64, TimeOfDay))
        ensures
            end.0 == day_of(clamp_i64(form_started(self@) + form_seconds(self@)) as i64, self@.offset_minutes),
            end.1 == time_of(clamp_i64(form_started(self@) + form_seconds(self@)) as i64, self@.offset_minutes),
    {
        let end = add_held(self.started(), self.seconds() as i64);
        local_of(end, self.offset_minutes)
    }

    /// The focuses the chooser offers, in the order of the catalogue: every focus that is not
    /// archived, and the one the record already has even when it is, so it can be kept.
    pub fn options(&self, catalog: &Tree) -> (ids: Vec<Id>)
        ensures
            ids@ == options_of(self@.focus, catalog.categories@),
    {
        let categories = &catalog.categories;
        let mut ids: Vec<Id> = Vec::new();
        let mut c: usize = 0;
        while c < categories.len()
            invariant
                c <= categories@.len(),
                categories@ == catalog.categories@,
                ids@ == shown_upto(categories@, c as int),
            decreases categories@.len() - c,
        {
            let category = &categories[c];
            if !category.archived {
                let ghost before = ids@;
                let mut f: usize = 0;
                while f < category.focuses.len()
                    invariant
                        c < categories@.len(),
                        *category == categories@[c as int],
                        f <= category.focuses@.len(),
                        ids@ == before + shown_focuses(*category, f as int),
                    decreases category.focuses@.len() - f,
                {
                    if !category.focuses[f].archived {
                        ids.push(category.focuses[f].id);
                    }
                    f = f + 1;
                }
            }
            assert(ids@ =~= shown_upto(categories@, c + 1));
            c = c + 1;
        }
        if let Some(own) = self.focus {
            let mut found = false;
            let mut k: usize = 0;
            while k < ids.len()
                invariant
                    k <= ids@.len(),
                    found == exists|j: int| 0 <= j < k && ids@[j] == own,
                decreases ids@.len() - k,
            {
                if ids[k] == own {
                    found = true;
                }
                k = k + 1;
            }
            if !found && catalog.focus(own).is_some() {
                ids.push(own);
            }
        }
        ids
    }

    /// What was typed, with `focus` standing in for the focus.
    pub fn changes_with(&self, focus: Id) -> (changes: Changes)
        ensures
            changes_hold(changes, self@, focus),
    {
        let chars = chars_of(self.note.as_str());
        let note = trim(chars.as_slice());
        Changes {
            focus,
            started: self.started(),
            offset_minutes: self.offset_minutes,
            seconds: self.seconds(),
            note: string_of(&note),
        }
    }

    /// Everything wrong with what was typed, against the catalogue and the wall clock `now`.
    pub fn problems(&self, catalog: &Tree, now: i64) -> (problems: Problems)
        ensures
            problems == problems_of(self@, catalog.categories@, now),
    {
        let known = match self.focus {
            Some(id) => catalog.focus(id).is_some(),
            None => false,
        };
        let started = self.started();
        let seconds = self.seconds();
        let duration = if seconds == 0 {
            Some(DurationProblem::Zero)
        } else if started <= now && add_held(started, seconds as i64) > now {
            Some(DurationProblem::EndsFuture)
        } else {
            None
        };
        let chars = chars_of(self.note.as_str());
        let note_chars = trim(chars.as_slice());
        let note = if byte_length(&note_chars) > MAX_NOTE_BYTES {
            Some(NoteProblem::Long)
        } else {
            let probe_focus = match self.focus {
                Some(id) => if known { id } else { Id::from_bits(0) },
                None => Id::from_bits(0),
            };
            let changes = self.changes_with(probe_focus);
            let probe = manual(&changes, Id::from_bits(0), now);
            assert(probe@ == probe_of(self@, probe_focus, now));
            if line_to_append(&probe).is_err() {
                Some(NoteProblem::LineLong)
            } else {
                None
            }
        };
        Problems { focus: !known, start: started > now, duration, note }
    }
}

/// Applies `msg` against the catalogue and the wall clock `now`: the field the keyboard goes to
/// when saving is refused, and what the application should do with the form.
pub fn update(form: &mut RecordForm, catalog: &Tree, now: i64, msg: Msg) -> (answer: (Option<Field>, Option<Outcome>))
    ensures
        final(form)@ == form_after(old(form)@, catalog.categories@, msg),
        match msg {
            Msg::Submit => {
                let problems = problems_of(old(form)@, catalog.categories@, now);
                if no_problem(problems) {
                    answer.0 is None && (answer.1 matches Some(Outcome::Save(changes)) && changes_hold(
                        changes,
                        old(form)@,
                        old(form)@.focus.unwrap(),
                    ))
                } else {
                    answer.0 == first_problem(problems) && answer.1 is None
                }
            },
            Msg::Cancel => answer.0 is None && answer.1 matches Some(Outcome::Cancel),
            _ => answer.0 is None && answer.1 is None,
        },
{
    match msg {
        Msg::Focus(index) => {
            let options = form.options(catalog);
            form.focus = if index < options.len() { Some(options[index]) } else { None };
            (None, None)
        },
        Msg::Date(day) => {
            form.day = day;
            (None, None)
        },
        Msg::Start(time) => {
            form.start = time;
            (None, None)
        },
        Msg::Duration(seconds) => {
            form.duration = seconds;
            form.rejected = None;
            (None, None)
        },
        Msg::Rejected(error) => {
            form.rejected = Some(error);
            (None, None)
        },
        Msg::Note(text) => {
            form.note = text;
            (None, None)
        },
        Msg::Submit => {
            let problems = form.problems(catalog, now);
            form.tried = true;
            if problems.is_empty() {
                match form.focus {
                    Some(focus) => (None, Some(Outcome::Save(form.changes_with(focus)))),
                    None => (problems.first(), None),
                }
            } else {
                (problems.first(), None)
            }
        },
        Msg::Cancel => (None, Some(Outcome::Cancel)),
    }
}

} // verus!
