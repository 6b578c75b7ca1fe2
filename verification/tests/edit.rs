use qfocus::id::Id;
use qfocus::session::edit::{Changes, adjusted, correction, manual};
use qfocus::session::{Flag, Session, Source};
use qfocus::span::{ClockSource, Span, SpanKind, check};

fn original() -> Session {
    Session {
        id: Id::new(10, 1),
        revision: 1,
        written: 1_758_131_400,
        focus: Id::new(2, 2),
        started: 1_758_124_800,
        offset_minutes: 180,
        ended: 1_758_131_400,
        spans: vec![
            Span::new(SpanKind::Work, 0, 1_500, ClockSource::Mono),
            Span::new(SpanKind::Pause, 1_500, 600, ClockSource::Mono),
            Span::new(SpanKind::Work, 2_100, 4_500, ClockSource::Mono),
        ],
        source: Source::Timer,
        replaces: None,
        voids: None,
        continues: Some(Id::new(9, 9)),
        flags: vec![Flag::SuspectClock, Flag::OverCeiling],
        note: "before".to_owned(),
    }
}

#[test]
fn a_manual_session_is_one_wall_clock_work_span() {
    let changes = Changes {
        focus: Id::new(2, 2),
        started: 1_758_124_800,
        offset_minutes: 180,
        seconds: 5_400,
        note: "typed".to_owned(),
    };
    let session = manual(&changes, Id::new(11, 1), 1_758_200_000);
    assert_eq!(session.revision, 1);
    assert_eq!(session.source, Source::Manual);
    assert_eq!(session.replaces, None);
    assert_eq!(session.ended, 1_758_124_800 + 5_400);
    assert_eq!(session.work_seconds(), 5_400);
    assert_eq!(session.spans, vec![Span::new(SpanKind::Work, 0, 5_400, ClockSource::Wall)]);
    assert!(check(&session.spans, 5_400).is_empty());
    assert!(session.flags.is_empty());
    assert_eq!(session.note, "typed");
}

#[test]
fn a_correction_of_the_time_rebuilds_the_spans_and_drops_the_ceiling_flag() {
    let original = original();
    let changes = Changes { seconds: 3_600, ..Changes::of(&original) };
    let correction = correction(&original, &changes, Id::new(12, 1), 1_758_300_000);
    assert_eq!(correction.revision, 2);
    assert_eq!(correction.replaces, Some(original.id));
    assert_eq!(correction.source, Source::Edited);
    assert_eq!(correction.written, 1_758_300_000);
    assert_eq!(correction.continues, original.continues, "the link to the earlier part stays");
    assert_eq!(correction.spans, vec![Span::new(SpanKind::Work, 0, 3_600, ClockSource::Wall)]);
    assert_eq!(correction.ended, original.started + 3_600);
    assert!(check(&correction.spans, 3_600).is_empty());
    assert_eq!(correction.flags, vec![Flag::SuspectClock], "the clock flag is kept, the ceiling one goes");
}

#[test]
fn a_correction_of_the_note_or_the_focus_keeps_the_measured_spans() {
    let original = original();
    let changes = Changes { focus: Id::new(3, 3), note: "after".to_owned(), ..Changes::of(&original) };
    let correction = correction(&original, &changes, Id::new(12, 1), 1_758_300_000);
    assert_eq!(correction.spans, original.spans);
    assert_eq!(correction.ended, original.ended);
    assert_eq!(correction.flags, original.flags, "nothing about the time changed");
    assert_eq!(correction.focus, Id::new(3, 3));
    assert_eq!(correction.note, "after");
    assert_eq!(correction.revision, 2);
}

#[test]
fn a_moved_start_counts_as_a_change_of_time() {
    let original = original();
    let changes = Changes { started: original.started + 600, ..Changes::of(&original) };
    assert!(changes.moves_time(&original));
    let fixed = adjusted(&original, &changes);
    assert_eq!(fixed.id, original.id, "adjusting keeps the identity");
    assert_eq!(fixed.started, original.started + 600);
    assert_eq!(fixed.work_seconds(), original.work_seconds());
    assert!(!fixed.flags.contains(&Flag::OverCeiling));
}

#[test]
fn changes_of_a_session_move_nothing() {
    let original = original();
    let changes = Changes::of(&original);
    assert!(!changes.moves_time(&original));
    assert_eq!(changes.seconds, 6_000, "the form starts from the work, not the whole stretch");
    assert_eq!(changes.note, "before");
}

#[test]
fn a_correction_of_a_correction_counts_one_revision_up() {
    let first = original();
    let second = correction(&first, &Changes::of(&first), Id::new(12, 1), 1_758_300_000);
    let third = correction(&second, &Changes::of(&second), Id::new(13, 1), 1_758_400_000);
    assert_eq!(third.revision, 3);
    assert_eq!(third.replaces, Some(second.id));
}
