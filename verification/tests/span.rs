use qfocus::span::{ClockSource, Span, SpanKind, check, work_seconds};

fn work(offset: u32, seconds: u32) -> Span {
    Span::new(SpanKind::Work, offset, seconds, ClockSource::Mono)
}

#[test]
fn net_time_counts_only_work() {
    let spans = [
        work(0, 1500),
        Span::new(SpanKind::Pause, 1500, 600, ClockSource::Mono),
        work(2100, 4500),
        Span::new(SpanKind::Gap, 6600, 7200, ClockSource::Boot),
        Span::new(SpanKind::Idle, 13_800, 900, ClockSource::Mono),
    ];
    assert_eq!(work_seconds(&spans), 6000);
}

#[test]
fn contiguous_spans_are_accepted() {
    let spans = [work(0, 100), Span::new(SpanKind::Pause, 100, 50, ClockSource::Mono)];
    assert!(check(&spans, 150).is_empty());
}

#[test]
fn a_hole_between_spans_is_reported() {
    let spans = [work(0, 100), work(120, 30)];
    let problems = check(&spans, 150);
    assert_eq!(problems.len(), 1);
    assert!(problems[0].contains("span 2 starts at 120"), "{problems:?}");
}

#[test]
fn overlapping_spans_are_reported() {
    let spans = [work(0, 100), work(80, 70)];
    assert_eq!(check(&spans, 150).len(), 1);
}

#[test]
fn spans_must_start_at_zero() {
    assert_eq!(check(&[work(10, 140)], 150).len(), 1);
}

#[test]
fn the_total_must_match_the_session() {
    let problems = check(&[work(0, 100)], 150);
    assert_eq!(problems.len(), 1);
    assert!(problems[0].contains("100"), "{problems:?}");
}

#[test]
fn no_spans_is_not_a_problem_for_an_empty_session() {
    assert!(check(&[], 0).is_empty());
}

#[test]
fn a_sleep_span_may_not_come_from_the_monotonic_clock() {
    let spans = [Span::new(SpanKind::Gap, 0, 150, ClockSource::Mono)];
    let problems = check(&spans, 150);
    assert_eq!(problems.len(), 1);
    assert!(problems[0].contains("sleep"), "{problems:?}");
}

#[test]
fn a_span_ends_where_its_seconds_run_out() {
    assert_eq!(work(u32::MAX, u32::MAX).end(), 2 * u64::from(u32::MAX));
    assert_eq!(work(10, 5).end(), 15);
}

#[test]
fn spans_that_hold_together_give_no_problem() {
    let spans = [work(0, 60), Span::new(SpanKind::Idle, 60, 30, ClockSource::Mono), work(90, 10)];
    assert!(check(&spans, 100).is_empty());
    assert_eq!(work_seconds(&spans), 70);
}
