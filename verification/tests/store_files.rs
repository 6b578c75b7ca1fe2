use qfocus::id::Id;
use qfocus::session::{Session, Source};
use qfocus::span::{ClockSource, Span, SpanKind};
use qfocus::session::resolve::roots;
use qfocus::store::purge::{
    MonthChange, PurgePlan, doomed_roots, goes, in_doomed_chain, month_change, sift, split_lines_of,
};
use qfocus::store::seen::Seen;
use qfocus::store::sessions::{AppendError, MAX_LINE_BYTES, line_to_append, month_of};
use qfocus::store::Access;




fn sample(started: i64, offset_minutes: i16) -> Session {
    Session {
        id: Id::new(u64::try_from(started).unwrap_or(0) * 1000, 1),
        revision: 1,
        written: started + 600,
        focus: Id::new(1_758_124_800_000, 2),
        started,
        offset_minutes,
        ended: started + 600,
        spans: vec![Span::new(SpanKind::Work, 0, 600, ClockSource::Mono)],
        source: Source::Timer,
        replaces: None,
        voids: None,
        continues: None,
        flags: Vec::new(),
        note: String::new(),
    }
}

#[test]
fn month_is_the_local_one() {
    // 2026-09-30 23:30 UTC is already October three hours east of Greenwich.
    let late = 1_790_811_000;
    assert_eq!(month_of(&sample(late, 0)), (2026, 9));
    assert_eq!(month_of(&sample(late, 180)), (2026, 10));
    // And still September west of it.
    assert_eq!(month_of(&sample(late, -300)), (2026, 9));
}

#[test]
fn too_long_is_refused_before_writing() {
    let mut session = sample(1_758_124_800, 0);
    session.note = "x".repeat(MAX_LINE_BYTES);
    match line_to_append(&session) {
        Err(AppendError::TooLong { bytes }) => assert!(bytes > MAX_LINE_BYTES),
        other => panic!("expected TooLong, got {other:?}"),
    }
}

#[test]
fn a_line_to_append_ends_in_a_line_break() {
    let session = sample(1_758_124_800, 0);
    let Ok(line) = line_to_append(&session) else { panic!("a short line is refused") };
    assert_eq!(line, format!("{}\n", qfocus::session::line::write(&session)));
}

#[test]
fn the_length_limit_counts_bytes_not_characters() {
    let mut session = sample(1_758_124_800, 0);
    let plain = qfocus::session::line::write(&session).len() + 1;
    // Two bytes a character: half as many characters reach the limit.
    session.note = "ğ".repeat((MAX_LINE_BYTES - plain) / 2 + 1);
    assert!(matches!(line_to_append(&session), Err(AppendError::TooLong { .. })));
}

#[test]
fn a_stamp_is_written_and_read_back() {
    let seen = Seen { started: 1_789_725_600, seen: 1_789_729_200 };
    assert_eq!(seen.write(), "started = 1789725600\nseen = 1789729200\n");
    assert_eq!(Seen::read(&seen.write()), Some(seen));
}

#[test]
fn a_broken_stamp_is_no_proof() {
    for text in ["", "started = 1\n", "seen = 2\n", "started = \"soon\"\nseen = 2\n", "started = 1\nseen = [\n"] {
        assert_eq!(Seen::read(text), None, "{text:?}");
    }
    assert_eq!(Seen::read("started = 1_000\nseen = 2_000\n"), Some(Seen { started: 1_000, seen: 2_000 }));
}

#[test]
fn only_a_reader_holding_the_lock_is_kept_from_writing() {
    assert!(Access::Writer.can_write());
    assert!(Access::NoLock.can_write());
    assert!(!Access::ReadOnly { holder: Some(42) }.can_write());
    assert!(!Access::ReadOnly { holder: None }.can_write());
}

#[test]
fn a_plan_with_only_kept_rows_takes_nothing() {
    assert!(PurgePlan { records: 0, rows: 0, kept_rows: 3 }.is_empty());
    assert!(!PurgePlan { records: 1, rows: 0, kept_rows: 0 }.is_empty());
    assert!(!PurgePlan { records: 0, rows: 2, kept_rows: 0 }.is_empty());
}

#[test]
fn a_line_goes_only_when_it_is_one_doomed_session() {
    let session = sample(1_758_124_800, 0);
    let line = format!("{}\n", qfocus::session::line::write(&session));
    let doomed = session.id;
    assert!(goes("2025-09.log", line.as_bytes(), |id| id == doomed));
    assert!(!goes("2025-09.log", line.as_bytes(), |_| false));
    assert!(!goes("2025-09.log", b"qf2;from;a;newer;version\n", |_| true));
    assert!(!goes("2025-09.log", b"not a session\n", |_| true));
    assert!(!goes("2025-09.log", &[0xff, 0xfe, b'\n'], |_| true));
}

#[test]
fn a_line_that_is_not_utf8_stands_as_an_empty_line_and_is_said_so_at_its_place() {
    let mut notes = Vec::new();
    let text = qfocus::store::sessions::valid_lines("2025-09.log", b"first\nbad \xff line\n\nlast", &mut notes);
    assert_eq!(text, "first\n\n\nlast");
    assert_eq!(notes.len(), 1);
    let location = notes[0].location.as_ref().expect("a place");
    assert_eq!((location.file.as_str(), location.line, location.column), ("2025-09.log", 2, 1));
    assert_eq!(notes[0].message, "not valid UTF-8 at byte 5; the line is skipped");
    let mut none = Vec::new();
    assert_eq!(qfocus::store::sessions::valid_lines("x", b"", &mut none), "");
    assert_eq!(qfocus::store::sessions::valid_lines("x", b"a\n", &mut none), "a\n");
    assert!(none.is_empty());
}

#[test]
fn a_month_file_is_cut_after_each_line_feed_and_sifted() {
    let pieces = split_lines_of(b"a\nbb\n\nc");
    assert_eq!(pieces, vec![b"a\n".to_vec(), b"bb\n".to_vec(), b"\n".to_vec(), b"c".to_vec()]);
    assert!(split_lines_of(b"").is_empty());
    let (kept, gone) = sift(&pieces, &[false, true, false, true]);
    assert_eq!((kept, gone), (b"a\n\n".to_vec(), 2));
    assert_eq!(month_change(0, 5), MonthChange::Untouched);
    assert_eq!(month_change(2, 0), MonthChange::Removed);
    assert_eq!(month_change(1, 3), MonthChange::Rewritten);
}

#[test]
fn the_trash_takes_each_chain_of_its_sessions_once() {
    let first = sample(1_000, 0);
    let mut fix = sample(2_000, 0);
    fix.revision = 2;
    fix.replaces = Some(first.id);
    let other = sample(3_000, 0);
    let chains = roots(&[first.clone(), fix.clone(), other.clone()]);
    let doomed = doomed_roots(&[fix.clone(), first.clone()], &chains);
    assert_eq!(doomed, vec![first.id]);
    assert!(in_doomed_chain(&chains, &doomed, fix.id));
    assert!(in_doomed_chain(&chains, &doomed, first.id));
    assert!(!in_doomed_chain(&chains, &doomed, other.id));
}
