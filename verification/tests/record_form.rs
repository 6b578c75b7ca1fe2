use qfocus::id::Id;
use qfocus::prefs::TimeOfDay;
use qfocus::record_form::{Field, Msg, Outcome, Purpose, RecordForm, update};
use qfocus::session::edit::Changes;
use qfocus::session::{Session, Source};
use qfocus::span::{ClockSource, Span, SpanKind};
use qfocus::tree::{Category, Focus, Order, Tree};

use qframe::date::{Date, DateTime};
use qframe::widgets::DurationError;

/// Noon UTC on 2026-09-18.
const NOON: i64 = 1_789_732_800;

fn catalog() -> Tree {
    Tree {
        categories: vec![Category {
            id: Id::new(1, 1),
            name: "Work".to_owned(),
            icon: None,
            goal: None,
            archived: false,
            order: Order { written: None, place: 0 },
            focuses: vec![
                Focus {
                    id: Id::new(2, 2),
                    name: "Rust".to_owned(),
                    goal: None,
                    archived: false,
                    order: Order { written: None, place: 0 },
                },
                Focus {
                    id: Id::new(3, 3),
                    name: "Review".to_owned(),
                    goal: None,
                    archived: true,
                    order: Order { written: None, place: 1 },
                },
            ],
        }],
    }
}

fn apply(form: &mut RecordForm, catalog: &Tree, msg: Msg) -> Option<Outcome> {
    let (_, outcome) = update(form, catalog, NOON, msg);
    outcome
}

fn session() -> Session {
    Session {
        id: Id::new(10, 1),
        revision: 1,
        written: NOON - 3_000,
        focus: Id::new(3, 3),
        started: NOON - 3_600,
        offset_minutes: 180,
        ended: NOON - 600,
        spans: vec![Span::new(SpanKind::Work, 0, 3_000, ClockSource::Mono)],
        source: Source::Timer,
        replaces: None,
        voids: None,
        continues: None,
        flags: Vec::new(),
        note: "notes".to_owned(),
    }
}

#[test]
fn an_empty_form_refuses_to_save_and_names_every_reason() {
    let catalog = catalog();
    let mut form = RecordForm::add(NOON, 180);
    assert_eq!(apply(&mut form, &catalog, Msg::Submit), None);
    let errors = form.problems(&catalog, NOON);
    assert!(errors.has(Field::Focus));
    assert!(errors.has(Field::Duration));
    assert!(!errors.has(Field::Start), "this minute is not the future");
    assert_eq!(errors.len(), 2);
}

#[test]
fn a_filled_form_saves_what_was_typed() {
    let catalog = catalog();
    let mut form = RecordForm::add(NOON, 180);
    assert_eq!(form.options(&catalog), vec![Id::new(2, 2)], "the archived focus is not offered");
    apply(&mut form, &catalog, Msg::Focus(0));
    apply(&mut form, &catalog, Msg::Start(TimeOfDay::new(13, 0, 0)));
    apply(&mut form, &catalog, Msg::Duration(5_400));
    apply(&mut form, &catalog, Msg::Note("  read  ".to_owned()));
    let outcome = apply(&mut form, &catalog, Msg::Submit);
    // Noon UTC is 15:00 in the form's offset; 13:00 to 14:30 lies before it.
    let started = DateTime {
        date: Date::from_days(form.day()),
        time: qframe::date::TimeOfDay::new(13, 0, 0),
        offset_minutes: 180,
    }
    .to_unix();
    assert_eq!(
        outcome,
        Some(Outcome::Save(Changes {
            focus: Id::new(2, 2),
            started,
            offset_minutes: 180,
            seconds: 5_400,
            note: "read".to_owned(),
        }))
    );
}

#[test]
fn the_future_is_refused_at_the_start_or_at_the_end() {
    let catalog = catalog();
    let mut form = RecordForm::add(NOON, 180);
    apply(&mut form, &catalog, Msg::Focus(0));
    apply(&mut form, &catalog, Msg::Start(TimeOfDay::new(16, 0, 0)));
    apply(&mut form, &catalog, Msg::Duration(600));
    assert_eq!(apply(&mut form, &catalog, Msg::Submit), None);
    let errors = form.problems(&catalog, NOON);
    assert!(errors.has(Field::Start));
    assert!(!errors.has(Field::Duration));
    apply(&mut form, &catalog, Msg::Start(TimeOfDay::new(14, 55, 0)));
    assert_eq!(apply(&mut form, &catalog, Msg::Submit), None);
    let errors = form.problems(&catalog, NOON);
    assert!(!errors.has(Field::Start));
    assert!(errors.has(Field::Duration), "ten minutes from five to three ends after noon UTC");
    apply(&mut form, &catalog, Msg::Duration(300));
    assert!(matches!(apply(&mut form, &catalog, Msg::Submit), Some(Outcome::Save(_))));
}

#[test]
fn a_long_note_is_refused_with_the_cap() {
    let catalog = catalog();
    let mut form = RecordForm::add(NOON, 180);
    apply(&mut form, &catalog, Msg::Focus(0));
    apply(&mut form, &catalog, Msg::Start(TimeOfDay::new(13, 0, 0)));
    apply(&mut form, &catalog, Msg::Duration(60));
    apply(&mut form, &catalog, Msg::Note("ş".repeat(600)));
    assert_eq!(apply(&mut form, &catalog, Msg::Submit), None, "600 two-byte letters pass a kibibyte");
    assert!(form.problems(&catalog, NOON).has(Field::Note));
    apply(&mut form, &catalog, Msg::Note("x".repeat(1_024)));
    assert!(matches!(apply(&mut form, &catalog, Msg::Submit), Some(Outcome::Save(_))));
}

#[test]
fn a_form_over_a_session_starts_from_it_and_keeps_its_archived_focus_on_offer() {
    let catalog = catalog();
    let session = session();
    let mut form = RecordForm::of(Purpose::Correct(session.id), &session);
    assert_eq!(form.options(&catalog), vec![Id::new(2, 2), Id::new(3, 3)]);
    assert_eq!(form.start(), TimeOfDay::new(14, 0, 0));
    assert_eq!(form.duration(), 3_000);
    assert_eq!(form.first_field(), Field::Focus);
    let outcome = apply(&mut form, &catalog, Msg::Submit);
    assert_eq!(outcome, Some(Outcome::Save(Changes::of(&session))), "unchanged, it saves as it was");
    let mut fixing = RecordForm::of(Purpose::Finish, &session);
    assert_eq!(fixing.first_field(), Field::Duration);
    assert_eq!(apply(&mut fixing, &catalog, Msg::Cancel), Some(Outcome::Cancel));
}

#[test]
fn a_rejected_paste_stays_until_the_duration_changes() {
    let catalog = catalog();
    let mut form = RecordForm::add(NOON, 180);
    apply(&mut form, &catalog, Msg::Rejected(DurationError::TooLarge));
    assert_eq!(form.rejected(), Some(&DurationError::TooLarge));
    apply(&mut form, &catalog, Msg::Duration(60));
    assert_eq!(form.rejected(), None);
}

#[test]
fn the_end_is_worked_out_across_midnight() {
    let catalog = catalog();
    let session = session();
    let mut form = RecordForm::of(Purpose::Add, &session);
    apply(&mut form, &catalog, Msg::Start(TimeOfDay::new(23, 30, 0)));
    apply(&mut form, &catalog, Msg::Duration(3_600));
    assert_eq!(form.ends().0, form.day() + 1);
    assert_eq!(form.ends().1, TimeOfDay::new(0, 30, 0));
}

#[test]
fn the_first_problem_in_the_order_of_the_form_takes_the_keyboard() {
    let catalog = catalog();
    let mut form = RecordForm::add(NOON, 180);
    let (field, outcome) = update(&mut form, &catalog, NOON, Msg::Submit);
    assert_eq!(field, Some(Field::Focus));
    assert_eq!(outcome, None);
    assert!(form.tried());
    apply(&mut form, &catalog, Msg::Focus(0));
    let (field, _) = update(&mut form, &catalog, NOON, Msg::Submit);
    assert_eq!(field, Some(Field::Duration));
}

#[test]
fn a_choice_beyond_the_offered_focuses_chooses_none() {
    let catalog = catalog();
    let mut form = RecordForm::add(NOON, 180);
    apply(&mut form, &catalog, Msg::Focus(0));
    assert_eq!(form.focus(), Some(Id::new(2, 2)));
    apply(&mut form, &catalog, Msg::Focus(5));
    assert_eq!(form.focus(), None);
}

#[test]
fn an_added_form_opens_on_this_minute_of_today() {
    let form = RecordForm::add(NOON + 42, 180);
    assert_eq!(form.start(), TimeOfDay::new(15, 0, 0));
    assert_eq!(form.day(), 20_714);
    assert_eq!(form.duration(), 0);
    assert_eq!(form.note(), "");
    assert_eq!(form.purpose(), Purpose::Add);
}
