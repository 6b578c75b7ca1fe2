use qfocus::diagnostics::{Diagnostic, Severity};
use qfocus::id::Id;
use qfocus::liveness::{Cut, Reach, Reason};
use qfocus::recover::{Kept, Recover, Telling, telling};
use qfocus::span::{ClockSource, Span, SpanKind};
use qfocus::store::running::{Running, Watch};

fn counter(paused: bool) -> Running {
    Running {
        focus: Id::new(11, 1),
        started: 1_000,
        offset_minutes: 0,
        spans: vec![Span::new(SpanKind::Work, 0, 600, ClockSource::Mono)],
        paused,
        refreshed: 1_600,
        flags: Vec::new(),
        target: None,
        idle_from: None,
        watch: Watch::Window,
    }
}

#[test]
fn a_restart_is_told_with_the_moment_it_cut_the_counter() {
    let reach = Reach { until: 1_700, cut: Some(Cut { at: 1_700, reason: Reason::Restart }) };
    assert_eq!(telling(reach, 90), Telling::Restarted { at: 1_700 });
    let found = Recover::Found { running: counter(false), focus: Some("Rust".to_owned()), ago: 90, reach };
    assert_eq!(found.found_report(), Some((Telling::Restarted { at: 1_700 }, 700)));
}

#[test]
fn a_closed_window_and_a_plain_leftover_say_how_long_ago() {
    let closed = Reach { until: 1_600, cut: Some(Cut { at: 1_600, reason: Reason::WindowGone }) };
    assert_eq!(telling(closed, 300), Telling::Closed { ago: 300 });
    let left = Reach { until: 1_900, cut: None };
    assert_eq!(telling(left, 5), Telling::Left { ago: 5 });
    let found = Recover::Found { running: counter(true), focus: None, ago: 5, reach: left };
    assert_eq!(found.found_report(), Some((Telling::Left { ago: 5 }, 600)), "a break adds no work");
}

#[test]
fn a_broken_file_has_no_counter_to_report() {
    let broken = Recover::Broken {
        problems: vec![Diagnostic { severity: Severity::Error, location: None, message: "bad".to_owned() }],
        path: "running.toml.broken".to_owned(),
        kept: Kept::Stuck("read-only".to_owned()),
    };
    assert_eq!(broken.found_report(), None);
}
