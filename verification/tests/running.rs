use qfocus::diagnostics::Diagnostic;
use qfocus::id::Id;
use qfocus::session::Flag;
use qfocus::span::{ClockSource, Span, SpanKind};
use qfocus::store::running::{Running, Watch, unanswered_silence};

/// `file:line:column` of a diagnostic, as the framework prints its place.
fn place(diagnostic: &Diagnostic) -> String {
    match &diagnostic.location {
        Some(at) => format!("{}:{}:{}", at.file, at.line, at.column),
        None => String::new(),
    }
}

fn sample() -> Running {
    Running {
        focus: Id::new(1_758_124_800_000, 2),
        started: 1_758_124_800,
        offset_minutes: 180,
        spans: vec![
            Span::new(SpanKind::Work, 0, 90, ClockSource::Mono),
            Span::new(SpanKind::Gap, 90, 30, ClockSource::Boot),
            Span::new(SpanKind::Pause, 120, 10, ClockSource::Mono),
        ],
        paused: true,
        refreshed: 1_758_124_930,
        flags: vec![Flag::SuspectClock, Flag::OverCeiling],
        target: None,
        idle_from: None,
        watch: Watch::Window,
    }
}

#[test]
fn who_watches_the_counter_is_written_and_read_back() {
    let window = sample().write();
    assert!(window.contains("watch = \"window\"\n"), "{window}");
    let alone = Running { watch: Watch::Nobody, ..sample() };
    let text = alone.write();
    assert!(text.contains("watch = \"none\"\n"), "{text}");
    assert!(text.starts_with("format = 2\n"), "the format stays");
    assert_eq!(Running::read("running.toml", &text), Ok(alone));
}

#[test]
fn a_file_without_watch_reads_as_watched_by_a_window() {
    let text = sample().write().replace("watch = \"window\"\n", "");
    assert_eq!(Running::read("running.toml", &text).map(|running| running.watch), Ok(Watch::Window));
}

#[test]
fn an_unknown_watch_gives_a_located_diagnostic() {
    let text = sample().write().replace("watch = \"window\"", "watch = \"daemon\"");
    let Err(diagnostics) = Running::read("running.toml", &text) else { panic!("read an unknown watch") };
    assert_eq!(diagnostics.len(), 1);
    assert!(diagnostics[0].message.contains("unknown watch"), "{diagnostics:?}");
    assert_eq!(diagnostics[0].location.as_ref().map(|at| at.line), Some(8));
}

#[test]
fn the_time_since_the_refresh_is_the_open_kind_up_to_where_the_counter_reaches() {
    let paused = sample();
    assert_eq!(paused.work_until(paused.refreshed + 600), 90, "a break stays a break");
    let working = Running { paused: false, ..sample() };
    assert_eq!(working.work_until(working.refreshed + 600), 690);
    assert_eq!(
        working.spans_until(working.refreshed + 600).last(),
        Some(&Span::new(SpanKind::Work, 130, 600, ClockSource::Wall))
    );
    assert_eq!(working.spans_until(working.refreshed - 50), working.spans, "nothing before the refresh");
}

#[test]
fn writes_and_reads_back_the_same_state() {
    let running = sample();
    let text = running.write();
    assert!(text.contains("[[span]]\nkind = \"work\"\noffset = 0\nseconds = 90\nclock = \"mono\"\n"), "{text}");
    assert_eq!(Running::read("running.toml", &text), Ok(running));
}

#[test]
fn a_counter_without_spans_or_flags_reads_back() {
    let running = Running { spans: Vec::new(), flags: Vec::new(), paused: false, ..sample() };
    assert_eq!(Running::read("running.toml", &running.write()), Ok(running));
}

#[test]
fn a_countdown_target_is_written_and_read_back() {
    let running = Running { target: Some(1_500), ..sample() };
    let text = running.write();
    assert!(text.contains("target = 1500\n"), "{text}");
    assert_eq!(Running::read("running.toml", &text), Ok(running));
    assert!(!sample().write().contains("target"), "no countdown, no key");
}

#[test]
fn a_file_written_before_countdowns_were_kept_reads_without_one() {
    let focus = sample().focus.to_string();
    let text = format!(
        "focus = \"{focus}\"\nstarted = 1758124800\noffset = 180\npaused = false\nrefreshed = 1758124930\nflags = []\n\n[[span]]\nkind = \"work\"\noffset = 0\nseconds = 130\nclock = \"mono\"\n"
    );
    let running = Running::read("running.toml", &text).expect("an old file reads");
    assert_eq!(running.target, None);
    assert_eq!(running.spans, vec![Span::new(SpanKind::Work, 0, 130, ClockSource::Mono)]);
}

#[test]
fn a_broken_target_gives_a_located_diagnostic() {
    let base = sample().write();
    for (value, message) in [("\"soon\"", "target is not a whole number"), ("-5", "target is not a count of seconds")] {
        let text = base.replacen("flags = ", &format!("target = {value}\nflags = "), 1);
        let Err(diagnostics) = Running::read("running.toml", &text) else { panic!("read a broken target") };
        assert_eq!(diagnostics.len(), 1, "{diagnostics:?}");
        assert!(diagnostics[0].message.contains(message), "{:?}", diagnostics[0]);
        assert!(place(&diagnostics[0]).contains("running.toml:7:10"), "{:?}", diagnostics[0]);
    }
}

fn idle(offset: u32, seconds: u32) -> Span {
    Span::new(SpanKind::Idle, offset, seconds, ClockSource::Mono)
}

#[test]
fn an_unanswered_silence_is_written_and_read_back() {
    let running = Running {
        spans: vec![Span::new(SpanKind::Work, 0, 600, ClockSource::Mono), idle(600, 900)],
        paused: false,
        flags: vec![Flag::UnclaimedIdle],
        idle_from: Some(600),
        ..sample()
    };
    let text = running.write();
    assert!(text.contains("idle-from = 600\n"), "{text}");
    assert_eq!(Running::read("running.toml", &text), Ok(running));
    assert!(!sample().write().contains("idle-from"), "nothing unanswered, no key");
}

#[test]
fn a_file_without_idle_from_asks_about_its_latest_silence() {
    let spans = vec![
        Span::new(SpanKind::Work, 0, 300, ClockSource::Mono),
        idle(300, 200),
        Span::new(SpanKind::Work, 500, 100, ClockSource::Mono),
        idle(600, 100),
        Span::new(SpanKind::Gap, 700, 400, ClockSource::Boot),
        idle(1_100, 50),
        Span::new(SpanKind::Work, 1_150, 50, ClockSource::Mono),
    ];
    let flagged = Running { spans: spans.clone(), flags: vec![Flag::UnclaimedIdle], ..sample() };
    let unmarked = |running: &Running| running.write().replacen("format = 2\n", "", 1);
    let found = Running::read("running.toml", &unmarked(&flagged)).expect("reads");
    assert_eq!(found.idle_from, Some(600), "the last run of idle spans, the sleep inside it included");
    let unflagged = Running { spans, flags: Vec::new(), ..sample() };
    assert_eq!(Running::read("running.toml", &unmarked(&unflagged)).map(|found| found.idle_from), Ok(None));
    let no_idle = Running { flags: vec![Flag::UnclaimedIdle], ..sample() };
    assert_eq!(Running::read("running.toml", &unmarked(&no_idle)).map(|found| found.idle_from), Ok(None));
}

#[test]
fn a_marked_file_without_idle_from_asks_about_nothing() {
    // The silence was answered "don't count": the flag and the idle span stay, the question
    // is gone, and a crash must not bring it back.
    let answered = Running {
        spans: vec![Span::new(SpanKind::Work, 0, 300, ClockSource::Mono), idle(300, 200)],
        flags: vec![Flag::UnclaimedIdle],
        ..sample()
    };
    let text = answered.write();
    assert!(text.starts_with("format = 2\n"), "{text}");
    assert_eq!(Running::read("running.toml", &text), Ok(answered));
}

#[test]
fn an_unknown_format_gives_a_located_diagnostic() {
    let base = sample().write();
    for (value, message) in [("3", "unknown format 3"), ("\"two\"", "format is not a whole number")] {
        let text = base.replacen("format = 2", &format!("format = {value}"), 1);
        let Err(diagnostics) = Running::read("running.toml", &text) else { panic!("read an unknown format") };
        assert_eq!(diagnostics.len(), 1, "{diagnostics:?}");
        assert!(place(&diagnostics[0]).contains("running.toml:1:10"), "{:?}", diagnostics[0]);
        assert!(diagnostics[0].message.contains(message), "{:?}", diagnostics[0]);
    }
}

#[test]
fn a_broken_idle_from_gives_a_located_diagnostic() {
    let text = sample().write().replacen("flags = ", "idle-from = -1\nflags = ", 1);
    let Err(diagnostics) = Running::read("running.toml", &text) else { panic!("read a broken idle-from") };
    assert_eq!(diagnostics.len(), 1, "{diagnostics:?}");
    assert!(place(&diagnostics[0]).contains("running.toml:7:13"), "{:?}", diagnostics[0]);
    assert!(diagnostics[0].message.contains("idle-from is not a count of seconds"), "{:?}", diagnostics[0]);
}

#[test]
fn a_broken_file_gives_located_diagnostics() {
    let text = "focus = \"not an id\"\nstarted = \"soon\"\noffset = 180\nrefreshed = 5\n\n[[span]]\nkind = \"nap\"\noffset = 0\nseconds = 1\nclock = \"mono\"\n";
    let Err(diagnostics) = Running::read("running.toml", text) else { panic!("read a broken file") };
    let places: Vec<String> = diagnostics.iter().map(place).collect();
    assert_eq!(diagnostics.len(), 3, "{places:?}");
    assert!(places[0].contains("running.toml:1:9"), "{places:?}");
    assert!(places[1].contains("running.toml:2:11"), "{places:?}");
    assert!(places[2].contains("running.toml:7:8"), "{places:?}");
}

#[test]
fn a_missing_field_is_reported() {
    let Err(diagnostics) = Running::read("running.toml", "started = 1\noffset = 0\nrefreshed = 2\n") else {
        panic!("read a file without a focus")
    };
    assert_eq!(diagnostics.len(), 1);
    assert!(diagnostics[0].message.contains("focus is missing"), "{:?}", diagnostics[0]);
}

#[test]
fn syntax_errors_are_reported_where_they_are() {
    let Err(diagnostics) = Running::read("running.toml", "focus = \n") else { panic!("read broken toml") };
    assert!(!diagnostics.is_empty());
    assert!(diagnostics[0].location.as_ref().is_some_and(|l| l.file == "running.toml" && l.line == 1));
}

#[test]
fn a_file_that_says_no_silence_went_unanswered_is_not_guessed_about() {
    assert_eq!(unanswered_silence(&[], &[idle(0, 10)]), None);
    assert_eq!(unanswered_silence(&[Flag::UnclaimedIdle], &[Span::new(SpanKind::Work, 0, 10, ClockSource::Mono)]), None);
    assert_eq!(unanswered_silence(&[Flag::UnclaimedIdle], &[idle(0, 10), idle(10, 5)]), Some(0));
}

#[test]
fn the_written_state_has_every_line_in_order() {
    let running = Running { target: Some(60), idle_from: Some(30), spans: Vec::new(), flags: Vec::new(), ..sample() };
    let focus = running.focus.to_string();
    assert_eq!(
        running.write(),
        format!(
            "format = 2\nfocus = \"{focus}\"\nstarted = 1758124800\noffset = 180\npaused = true\nrefreshed = 1758124930\nflags = []\ntarget = 60\nidle-from = 30\nwatch = \"window\"\n"
        )
    );
}

#[test]
fn the_watch_word_reads_back() {
    assert_eq!(Watch::parse(Watch::Window.word()), Some(Watch::Window));
    assert_eq!(Watch::parse(Watch::Nobody.word()), Some(Watch::Nobody));
    assert_eq!(Watch::parse("daemon"), None);
}
