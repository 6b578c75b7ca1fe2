use qfocus::id::Id;
use qfocus::session::line::read;
use qfocus::session::{Flag, Session, Source};
use qfocus::span::{ClockSource, Span, SpanKind};

fn sample() -> Session {
    Session {
        id: Id::new(1_758_131_400_000, 1),
        revision: 1,
        written: 1_758_131_400,
        focus: Id::new(1_758_124_800_000, 2),
        started: 1_758_124_800,
        offset_minutes: 180,
        ended: 1_758_131_400,
        spans: vec![
            Span::new(SpanKind::Work, 0, 1500, ClockSource::Mono),
            Span::new(SpanKind::Pause, 1500, 600, ClockSource::Mono),
            Span::new(SpanKind::Work, 2100, 4500, ClockSource::Mono),
        ],
        source: Source::Timer,
        replaces: None,
        voids: None,
        continues: None,
        flags: Vec::new(),
        note: String::new(),
    }
}

#[test]
fn writes_every_field_in_order() {
    let line = qfocus::session::line::write(&sample());
    let fields: Vec<&str> = line.split(';').collect();
    assert_eq!(fields.len(), 15);
    assert_eq!(fields[0], "qf1");
    assert_eq!(fields[2], "1");
    assert_eq!(fields[6], "180");
    assert_eq!(fields[8], "w:0:1500:m,p:1500:600:m,w:2100:4500:m");
    assert_eq!(fields[9], "timer");
}

#[test]
fn leaves_absent_links_empty() {
    let line = qfocus::session::line::write(&sample());
    let fields: Vec<&str> = line.split(';').collect();
    assert_eq!(fields[10], "");
    assert_eq!(fields[11], "");
    assert_eq!(fields[12], "");
    assert_eq!(fields[13], "");
    assert_eq!(fields[14], "");
}

#[test]
fn writes_links_and_flags_when_they_are_there() {
    let mut session = sample();
    session.revision = 2;
    session.source = Source::Edited;
    session.replaces = Some(Id::new(1, 1));
    session.flags = vec![Flag::SuspectClock, Flag::OverCeiling];
    let fields: Vec<String> = qfocus::session::line::write(&session).split(';').map(str::to_owned).collect();
    assert_eq!(fields[9], "edited");
    assert_eq!(fields[10], Id::new(1, 1).to_string());
    assert_eq!(fields[13], "suspect-clock,over-ceiling");
}

/// Separators that actually separate: a `;` the note carries is escaped and does not count.
fn unescaped_separators(line: &str) -> usize {
    let mut count = 0;
    let mut escaped = false;
    for character in line.chars() {
        if escaped {
            escaped = false;
        } else if character == '\\' {
            escaped = true;
        } else if character == ';' {
            count += 1;
        }
    }
    count
}

#[test]
fn escapes_the_note() {
    let mut session = sample();
    session.note = "yol C:\\temp\\; iki\nsatır".to_owned();
    let line = qfocus::session::line::write(&session);
    assert!(line.ends_with("yol C:\\\\temp\\\\\\; iki\\nsatır"), "{line}");
    assert_eq!(unescaped_separators(&line), 14, "kaçırılmış ayırıcı satırı böldü");
}

#[test]
fn a_line_never_carries_a_newline() {
    let mut session = sample();
    session.note = "bir\nsatır\r\nbaşka".to_owned();
    let line = qfocus::session::line::write(&session);
    assert!(!line.contains('\n'));
    assert!(!line.contains('\r'));
}

#[test]
fn reads_back_what_it_wrote() {
    let session = sample();
    let text = format!("{}\n", qfocus::session::line::write(&session));
    let reading = read("2026-09.log", &text);
    assert!(reading.diagnostics.is_empty(), "{:?}", reading.diagnostics);
    assert_eq!(reading.sessions, vec![session]);
}

#[test]
fn reads_back_a_note_with_separators_and_backslashes() {
    let mut session = sample();
    session.note = "yol C:\\temp\\; iki\nsatır".to_owned();
    let text = format!("{}\n", qfocus::session::line::write(&session));
    let reading = read("2026-09.log", &text);
    assert_eq!(reading.sessions.first().map(|found| found.note.clone()), Some(session.note));
}

#[test]
fn skips_a_broken_line_and_keeps_the_rest() {
    let good = qfocus::session::line::write(&sample());
    let text = format!("{good}\nqf1;bozuk\n{good}\n");
    let reading = read("2026-09.log", &text);
    assert_eq!(reading.sessions.len(), 2);
    assert_eq!(reading.diagnostics.len(), 1);
    let location = reading.diagnostics[0].location.as_ref().expect("konum");
    assert_eq!(location.line, 2);
    assert_eq!(location.file, "2026-09.log");
}

#[test]
fn an_unknown_version_is_counted_not_broken() {
    let text = format!("{}\nqf2;whatever;this;is\n", qfocus::session::line::write(&sample()));
    let reading = read("2026-09.log", &text);
    assert_eq!(reading.sessions.len(), 1);
    assert_eq!(reading.unknown_version, 1);
    assert!(reading.diagnostics.is_empty(), "{:?}", reading.diagnostics);
}

#[test]
fn a_line_that_is_not_ours_at_all_is_an_error() {
    let reading = read("2026-09.log", "merhaba dünya\n");
    assert_eq!(reading.unknown_version, 0);
    assert_eq!(reading.diagnostics.len(), 1);
}

#[test]
fn empty_lines_are_ignored() {
    let text = format!("\n{}\n\n", qfocus::session::line::write(&sample()));
    let reading = read("2026-09.log", &text);
    assert_eq!(reading.sessions.len(), 1);
    assert!(reading.diagnostics.is_empty());
}

#[test]
fn broken_spans_are_reported_but_the_session_is_kept() {
    let mut session = sample();
    session.spans = vec![Span::new(SpanKind::Work, 10, 100, ClockSource::Mono)];
    let text = format!("{}\n", qfocus::session::line::write(&session));
    let reading = read("2026-09.log", &text);
    assert_eq!(reading.sessions.len(), 1, "kayıt atılmamalı");
    assert!(!reading.diagnostics.is_empty());
}

#[test]
fn a_column_points_at_characters_not_bytes() {
    let mut session = sample();
    session.note = "ğğğ".to_owned();
    let text = format!("{}\nqf1;bozuk\n", qfocus::session::line::write(&session));
    let reading = read("2026-09.log", &text);
    let location = reading.diagnostics[0].location.as_ref().expect("konum");
    assert_eq!(location.line, 2);
    assert_eq!(location.column, 1);
}

#[test]
fn every_field_reads_back_links_flags_and_all() {
    let mut session = sample();
    session.revision = 7;
    session.written = -5;
    session.offset_minutes = -300;
    session.source = Source::Recovered;
    session.replaces = Some(Id::new(3, 3));
    session.voids = Some(Id::new(4, 4));
    session.continues = Some(Id::new(5, 5));
    session.flags = vec![Flag::UnclaimedIdle, Flag::SuspectClock];
    session.note = "a;b\\c\r\nd".to_owned();
    let text = format!("{}\n", qfocus::session::line::write(&session));
    let reading = read("2026-09.log", &text);
    assert_eq!(reading.sessions, vec![session]);
}
