use std::time::Duration;

use qfocus::id::Id;
use qfocus::session::{Flag, Source};
use qfocus::span::{ClockSource, Span, SpanKind, check};
use qfocus::timer::{Clocks, IdleDecision, Notice, Timer, Uptime};
fn focus_id() -> Id {
    Id::new(1, 1)
}
const OFFSET: i16 = 180;
const WALL: i64 = 1_758_186_000;

/// A reading `awake` seconds of awake time and `asleep` seconds of sleep after boot, with a
/// wall clock that has moved along with the session clock plus `skew` seconds.
fn clocks(awake: u64, asleep: u64, skew: i64) -> Clocks {
    Clocks {
        wall: WALL + i64::try_from(awake + asleep).expect("fits") + skew,
        uptime: Uptime {
            awake: Duration::from_secs(awake).as_nanos(),
            elapsed: (Duration::from_secs(awake) + Duration::from_secs(asleep)).as_nanos(),
        },
    }
}

/// A reading `seconds` in, with nothing slept and the wall clock in step.
fn at(seconds: u64) -> Clocks {
    clocks(seconds, 0, 0)
}

fn timer() -> Timer {
    Timer::start(focus_id(), at(0), OFFSET).detects_suspend(true)
}

fn assert_consistent(timer: &Timer, now: Clocks) {
    let spans = timer.spans(now);
    let problems = check(&spans, timer.elapsed(now));
    assert!(problems.is_empty(), "{problems:?} in {spans:?}");
}

fn work(offset: u32, seconds: u32) -> Span {
    Span::new(SpanKind::Work, offset, seconds, ClockSource::Mono)
}

fn pause(offset: u32, seconds: u32) -> Span {
    Span::new(SpanKind::Pause, offset, seconds, ClockSource::Mono)
}

/// A span of `kind` counted through a sleep, measured by the clock that keeps going in it.
fn asleep(kind: SpanKind, offset: u32, seconds: u32) -> Span {
    Span::new(kind, offset, seconds, ClockSource::Boot)
}

fn slept_work(offset: u32, seconds: u32) -> Span {
    asleep(SpanKind::Work, offset, seconds)
}

#[test]
fn a_fresh_timer_holds_no_time() {
    let timer = timer();
    assert_eq!(timer.elapsed(at(0)), 0);
    assert_eq!(timer.work_seconds(at(0)), 0);
    assert!(timer.spans(at(0)).is_empty());
    assert!(!timer.is_paused());
    assert_eq!(timer.focus(), focus_id());
    assert_eq!(timer.started(), WALL);
    assert_eq!(timer.offset_minutes(), OFFSET);
    assert!(timer.flags().is_empty());
    assert_consistent(&timer, at(0));
}

#[test]
fn work_grows_with_the_awake_clock() {
    let mut timer = timer();
    for second in 1..=90 {
        assert!(timer.tick(at(second)).is_empty());
    }
    assert_eq!(timer.elapsed(at(90)), 90);
    assert_eq!(timer.work_seconds(at(90)), 90);
    assert_eq!(timer.spans(at(90)), vec![work(0, 90)]);
    assert_consistent(&timer, at(90));
}

#[test]
fn readings_between_ticks_are_counted_from_the_origin_not_added_up() {
    let mut timer = timer();
    // Ticks that land just short of each second must not lose a second each.
    for tick in 1..=10u64 {
        let now = Clocks {
            wall: WALL + i64::try_from(tick).expect("fits"),
            uptime: Uptime {
                awake: Duration::from_millis(tick * 1_000 - 1).as_nanos(),
                elapsed: Duration::from_millis(tick * 1_000 - 1).as_nanos(),
            },
        };
        timer.tick(now);
    }
    assert_eq!(timer.elapsed(at(10)), 10);
    assert_consistent(&timer, at(10));
}

#[test]
fn a_pause_is_its_own_span_and_does_not_count_as_work() {
    let mut timer = timer();
    timer.tick(at(60));
    timer.pause(at(60));
    assert!(timer.is_paused());
    timer.tick(at(90));
    timer.resume(at(120));
    assert!(!timer.is_paused());
    timer.tick(at(150));
    assert_eq!(timer.spans(at(150)), vec![work(0, 60), pause(60, 60), work(120, 30)]);
    assert_eq!(timer.work_seconds(at(150)), 90);
    assert_eq!(timer.elapsed(at(150)), 150);
    assert_consistent(&timer, at(150));
}

#[test]
fn pausing_twice_or_resuming_while_running_changes_nothing() {
    let mut timer = timer();
    timer.resume(at(10));
    timer.pause(at(20));
    timer.pause(at(30));
    timer.resume(at(40));
    assert_eq!(timer.spans(at(50)), vec![work(0, 20), pause(20, 20), work(40, 10)]);
    assert_consistent(&timer, at(50));
}

#[test]
fn sleep_while_working_counts_as_work_measured_through_the_sleep() {
    let mut timer = timer();
    timer.tick(at(300));
    // Five minutes of work, two hours of sleep, and the tick fires on waking.
    let now = clocks(300, 7_200, 0);
    assert_eq!(timer.tick(now), vec![Notice::Suspended(7_200, SpanKind::Work)]);
    assert_eq!(timer.spans(now), vec![work(0, 300), slept_work(300, 7_200)]);
    assert_eq!(timer.work_seconds(now), 7_500, "two hours and five minutes");
    assert!(timer.flags().is_empty(), "sleep is not a clock jump");
    assert_consistent(&timer, now);
    let later = clocks(360, 7_200, 0);
    timer.tick(later);
    assert_eq!(timer.spans(later), vec![work(0, 300), slept_work(300, 7_200), work(7_500, 60)]);
    assert_eq!(timer.elapsed(later), 7_560);
    assert_eq!(timer.work_seconds(later), 7_560);
    assert_consistent(&timer, later);
}

#[test]
fn sleep_during_a_break_is_added_to_the_break() {
    let mut timer = timer();
    timer.tick(at(30));
    timer.pause(at(30));
    timer.tick(at(40));
    assert_eq!(timer.tick(clocks(41, 500, 0)), vec![Notice::Suspended(500, SpanKind::Pause)]);
    timer.tick(clocks(50, 500, 0));
    assert!(timer.is_paused());
    let now = clocks(50, 500, 0);
    let slept = asleep(SpanKind::Pause, 40, 500);
    assert_eq!(timer.spans(now), vec![work(0, 30), pause(30, 10), slept, pause(540, 10)]);
    assert_eq!(timer.work_seconds(now), 30);
    assert_consistent(&timer, now);
    timer.resume(now);
    timer.tick(clocks(60, 500, 0));
    let now = clocks(60, 500, 0);
    assert_eq!(timer.spans(now), vec![work(0, 30), pause(30, 10), slept, pause(540, 10), work(550, 10)]);
    assert_consistent(&timer, now);
}

#[test]
fn two_sleeps_in_a_row_merge_into_one_span_counted_through_sleep() {
    let mut timer = timer();
    timer.tick(at(10));
    timer.tick(clocks(10, 100, 0));
    timer.tick(clocks(10, 250, 0));
    let now = clocks(20, 250, 0);
    assert_eq!(timer.spans(now), vec![work(0, 10), slept_work(10, 250), work(260, 10)]);
    assert_consistent(&timer, now);
}

#[test]
fn without_suspend_detection_a_late_tick_is_counted_as_sleep_of_the_open_kind() {
    let mut timer = Timer::start(focus_id(), at(0), OFFSET).detects_suspend(false);
    timer.tick(at(1));
    timer.tick(at(2));
    // On such a platform both clocks read the same; the tick arrives thirty seconds late.
    let notices = timer.tick(at(32));
    assert_eq!(notices, vec![Notice::Lagged(29, SpanKind::Work)]);
    timer.tick(at(33));
    assert_eq!(timer.spans(at(33)), vec![work(0, 2), slept_work(2, 29), work(31, 2)]);
    assert_eq!(timer.elapsed(at(33)), 33);
    assert_eq!(timer.work_seconds(at(33)), 33, "the lateness is counted");
    assert_consistent(&timer, at(33));
}

#[test]
fn without_suspend_detection_a_slightly_late_tick_is_still_work() {
    let mut timer = Timer::start(focus_id(), at(0), OFFSET).detects_suspend(false);
    timer.tick(at(1));
    assert!(timer.tick(at(6)).is_empty(), "five seconds is within the floor");
    assert_eq!(timer.spans(at(6)), vec![work(0, 6)]);
    assert_consistent(&timer, at(6));
}

#[test]
fn the_lag_threshold_follows_the_tick_interval() {
    let mut timer = Timer::start(focus_id(), at(0), OFFSET).detects_suspend(false).tick_interval(10);
    assert!(timer.tick(at(30)).is_empty(), "three ticks late is within the threshold");
    let notices = timer.tick(at(61));
    assert_eq!(notices, vec![Notice::Lagged(21, SpanKind::Work)]);
    assert_eq!(timer.spans(at(61)), vec![work(0, 30), slept_work(30, 21), work(51, 10)]);
    assert_consistent(&timer, at(61));
}

#[test]
fn with_suspend_detection_a_late_tick_is_only_work() {
    let mut timer = timer();
    timer.tick(at(1));
    assert!(timer.tick(at(60)).is_empty());
    assert_eq!(timer.spans(at(60)), vec![work(0, 60)]);
}

#[test]
fn a_clock_jump_flags_the_session_once_and_removes_no_time() {
    let mut timer = timer();
    timer.tick(at(10));
    // The wall clock is stepped back ninety seconds by a time daemon.
    let notices = timer.tick(clocks(11, 0, -90));
    assert_eq!(notices, vec![Notice::ClockJump(-90)]);
    assert_eq!(timer.flags(), &[Flag::SuspectClock]);
    // It stays ninety seconds behind: no new jump, and still one flag.
    assert!(timer.tick(clocks(12, 0, -90)).is_empty());
    // Then it is stepped forward again.
    let notices = timer.tick(clocks(13, 0, 30));
    assert_eq!(notices, vec![Notice::ClockJump(120)]);
    assert_eq!(timer.flags(), &[Flag::SuspectClock]);
    assert_eq!(timer.elapsed(clocks(13, 0, 30)), 13);
    assert_eq!(timer.spans(clocks(13, 0, 30)), vec![work(0, 13)]);
    assert_consistent(&timer, clocks(13, 0, 30));
}

#[test]
fn small_wall_drift_is_tolerated() {
    let mut timer = timer();
    assert!(timer.tick(clocks(1, 0, 5)).is_empty());
    assert!(timer.flags().is_empty());
    assert_eq!(timer.tick(clocks(2, 0, 11)), vec![Notice::ClockJump(6)]);
}

#[test]
fn sleep_keeps_the_wall_clock_in_step() {
    let mut timer = timer();
    timer.tick(at(5));
    // The wall clock moved 600 seconds, and so did the elapsed clock: no jump.
    assert_eq!(timer.tick(clocks(6, 599, 0)), vec![Notice::Suspended(599, SpanKind::Work)]);
    assert!(timer.flags().is_empty());
}

#[test]
fn passing_the_ceiling_flags_the_session_once() {
    let mut timer = timer().ceiling(100);
    assert!(timer.tick(at(100)).is_empty(), "the ceiling itself is not over it");
    assert_eq!(timer.tick(at(101)), vec![Notice::OverCeiling]);
    assert_eq!(timer.flags(), &[Flag::OverCeiling]);
    assert!(timer.tick(at(200)).is_empty());
    assert_eq!(timer.flags(), &[Flag::OverCeiling]);
}

#[test]
fn only_work_counts_towards_the_ceiling() {
    let mut timer = timer().ceiling(100);
    timer.tick(at(50));
    timer.pause(at(50));
    assert!(timer.tick(at(300)).is_empty());
    timer.resume(at(300));
    assert!(timer.tick(at(350)).is_empty());
    assert_eq!(timer.tick(at(351)), vec![Notice::OverCeiling]);
}

#[test]
fn readings_that_go_backwards_count_as_nothing() {
    let mut timer = timer();
    timer.tick(at(10));
    let earlier = Clocks {
        wall: WALL + 10,
        uptime: Uptime { awake: Duration::from_secs(3).as_nanos(), elapsed: Duration::from_secs(3).as_nanos() },
    };
    assert!(timer.tick(earlier).is_empty());
    assert_eq!(timer.elapsed(earlier), 10);
    assert_eq!(timer.spans(earlier), vec![work(0, 10)]);
    timer.tick(at(12));
    assert_eq!(timer.spans(at(12)), vec![work(0, 12)]);
    assert_consistent(&timer, at(12));
}

#[test]
fn a_reading_before_the_origin_counts_as_the_origin() {
    let timer = Timer::start(focus_id(), at(100), OFFSET);
    assert_eq!(timer.elapsed(at(40)), 0);
    assert!(timer.spans(at(40)).is_empty());
}

#[test]
fn stop_writes_a_timer_session_that_holds_together() {
    let mut timer = timer();
    timer.tick(at(100));
    timer.pause(at(100));
    timer.resume(at(160));
    timer.tick(clocks(200, 300, 0));
    let now = clocks(260, 300, 0);
    let id = Id::new(5, 5);
    let session = timer.stop(now, id, WALL + 1_000);
    assert_eq!(session.id, id);
    assert_eq!(session.revision, 1);
    assert_eq!(session.written, WALL + 1_000);
    assert_eq!(session.focus, focus_id());
    assert_eq!(session.started, WALL);
    assert_eq!(session.offset_minutes, OFFSET);
    assert_eq!(session.ended, WALL + 560);
    assert_eq!(session.spans, vec![work(0, 100), pause(100, 60), slept_work(160, 300), work(460, 100)]);
    assert_eq!(session.source, Source::Timer);
    assert_eq!(session.replaces, None);
    assert_eq!(session.voids, None);
    assert_eq!(session.continues, None);
    assert!(session.flags.is_empty());
    assert!(session.note.is_empty());
    assert_eq!(session.work_seconds(), 500);
    assert!(check(&session.spans, 560).is_empty());
}

#[test]
fn stop_takes_the_last_reading_into_account() {
    let mut timer = timer().ceiling(30);
    timer.tick(at(10));
    // Sleep and the ceiling are both found by the final reading, not a tick before it.
    let session = timer.stop(clocks(40, 100, 0), Id::new(5, 5), WALL + 140);
    assert_eq!(session.spans, vec![work(0, 10), slept_work(10, 100), work(110, 30)]);
    assert_eq!(session.ended, WALL + 140);
    assert_eq!(session.flags, vec![Flag::OverCeiling]);
}

#[test]
fn restore_fills_the_unseen_time_with_a_wall_gap_and_carries_on() {
    let spans = vec![work(0, 300), pause(300, 60), work(360, 240)];
    // The program died 600 seconds in and comes back 900 seconds after its last save.
    let now = at(0);
    let mut timer = Timer::restore(focus_id(), WALL - 1_500, OFFSET, spans, false, WALL - 900, WALL - 900, now)
        .detects_suspend(true);
    assert_eq!(timer.elapsed(now), 1_500);
    assert_consistent(&timer, now);
    timer.tick(at(30));
    let expected = vec![
        work(0, 300),
        pause(300, 60),
        work(360, 240),
        Span::new(SpanKind::Gap, 600, 900, ClockSource::Wall),
        work(1_500, 30),
    ];
    assert_eq!(timer.spans(at(30)), expected);
    assert_consistent(&timer, at(30));
    let session = timer.stop(at(30), Id::new(5, 5), WALL + 30);
    assert_eq!(session.source, Source::Recovered);
    assert_eq!(session.started, WALL - 1_500);
    assert_eq!(session.ended, WALL + 30);
    assert!(check(&session.spans, 1_530).is_empty());
}

#[test]
fn restore_counts_to_where_the_counter_was_alive_and_leaves_the_rest_out() {
    let spans = vec![work(0, 300)];
    // Saved 300 seconds in, alive for 600 more, then the machine was off for 900.
    let now = at(0);
    let mut timer = Timer::restore(focus_id(), WALL - 1_800, OFFSET, spans, false, WALL - 1_500, WALL - 900, now)
        .detects_suspend(true);
    assert_eq!(timer.elapsed(now), 1_800);
    timer.tick(at(30));
    let expected = vec![
        work(0, 300),
        Span::new(SpanKind::Work, 300, 600, ClockSource::Wall),
        Span::new(SpanKind::Gap, 900, 900, ClockSource::Wall),
        work(1_800, 30),
    ];
    assert_eq!(timer.spans(at(30)), expected);
    assert_eq!(timer.work_seconds(at(30)), 930);
    assert_consistent(&timer, at(30));
}

#[test]
fn restore_of_a_paused_counter_alive_until_now_is_one_longer_break() {
    let spans = vec![work(0, 100), pause(100, 20)];
    let timer = Timer::restore(focus_id(), WALL - 200, OFFSET, spans, true, WALL - 80, WALL, at(0));
    let expected = vec![work(0, 100), pause(100, 20), Span::new(SpanKind::Pause, 120, 80, ClockSource::Wall)];
    assert_eq!(timer.spans(at(0)), expected, "no gap when it was alive all along");
    assert_eq!(timer.work_seconds(at(0)), 100);
}

#[test]
fn restore_keeps_until_between_the_last_save_and_now() {
    let spans = vec![work(0, 100)];
    let early = Timer::restore(focus_id(), WALL - 200, OFFSET, spans.clone(), false, WALL - 100, WALL - 500, at(0));
    assert_eq!(
        early.spans(at(0)),
        vec![work(0, 100), Span::new(SpanKind::Gap, 100, 100, ClockSource::Wall)],
        "an until before the save is the save"
    );
    let late = Timer::restore(focus_id(), WALL - 200, OFFSET, spans, false, WALL - 100, WALL + 500, at(0));
    assert_eq!(late.spans(at(0)), vec![work(0, 100), Span::new(SpanKind::Work, 100, 100, ClockSource::Wall)]);
    assert_consistent(&late, at(0));
}

#[test]
fn restore_keeps_the_flags_it_is_handed_once_and_the_source_it_is_told() {
    let now = at(0);
    let timer = Timer::restore(focus_id(), WALL - 100, OFFSET, vec![work(0, 100)], false, WALL, WALL, now)
        .with_flags(vec![Flag::SuspectClock, Flag::SuspectClock])
        .source(Source::Timer);
    let session = timer.stop(at(10), Id::new(5, 5), WALL + 10);
    assert_eq!(session.flags, vec![Flag::SuspectClock]);
    assert_eq!(session.source, Source::Timer);
    let plain = Timer::restore(focus_id(), WALL - 100, OFFSET, vec![work(0, 100)], false, WALL, WALL, now);
    assert_eq!(plain.stop(at(10), Id::new(6, 6), WALL + 10).source, Source::Recovered);
}

#[test]
fn restore_of_a_paused_timer_stays_paused() {
    let spans = vec![work(0, 100), pause(100, 20)];
    let mut timer = Timer::restore(focus_id(), WALL - 200, OFFSET, spans, true, WALL - 80, WALL - 80, at(0))
        .detects_suspend(true);
    assert!(timer.is_paused());
    timer.tick(at(10));
    assert_eq!(
        timer.spans(at(10)),
        vec![work(0, 100), pause(100, 20), Span::new(SpanKind::Gap, 120, 80, ClockSource::Wall), pause(200, 10)]
    );
    assert_consistent(&timer, at(10));
    timer.resume(at(10));
    timer.tick(at(15));
    assert_eq!(timer.work_seconds(at(15)), 105);
    assert_consistent(&timer, at(15));
}

#[test]
fn restore_right_after_the_last_save_opens_no_gap() {
    let spans = vec![work(0, 100)];
    let timer = Timer::restore(focus_id(), WALL - 100, OFFSET, spans, false, WALL, WALL, at(0));
    assert_eq!(timer.spans(at(5)), vec![work(0, 105)]);
    assert_consistent(&timer, at(5));
}

#[test]
fn restore_with_a_wall_clock_behind_the_last_save_opens_no_gap() {
    let spans = vec![work(0, 100)];
    let timer = Timer::restore(focus_id(), WALL - 100, OFFSET, spans, false, WALL + 500, WALL + 500, at(0));
    assert_eq!(timer.spans(at(1)), vec![work(0, 101)]);
    assert_consistent(&timer, at(1));
}

#[test]
fn restore_merges_adjacent_spans_of_the_same_kind() {
    let spans = vec![work(0, 40), work(40, 60)];
    let timer = Timer::restore(focus_id(), WALL - 100, OFFSET, spans, false, WALL, WALL, at(0));
    assert_eq!(timer.spans(at(0)), vec![work(0, 100)]);
}

#[test]
fn restore_with_no_spans_starts_from_zero() {
    let mut timer = Timer::restore(focus_id(), WALL - 30, OFFSET, Vec::new(), false, WALL - 30, WALL - 30, at(0));
    timer.tick(at(5));
    assert_eq!(timer.spans(at(5)), vec![Span::new(SpanKind::Gap, 0, 30, ClockSource::Wall), work(30, 5)]);
    assert_consistent(&timer, at(5));
}

fn idle(offset: u32, seconds: u32) -> Span {
    Span::new(SpanKind::Idle, offset, seconds, ClockSource::Mono)
}

/// Fifteen minutes of work, then the silence is noticed at the twenty-fifth minute: the
/// last fifteen are re-kinded, and the silence goes on to the thirtieth.
fn away_timer() -> Timer {
    let mut timer = timer();
    timer.tick(at(600));
    timer.idle_since(at(1_500), 900);
    timer.tick(at(1_800));
    timer
}

#[test]
fn silence_re_kinds_the_tail_as_idle_and_is_not_counted() {
    let timer = away_timer();
    assert!(timer.is_away());
    assert!(!timer.has_unclaimed_idle());
    assert_eq!(timer.spans(at(1_800)), vec![work(0, 600), idle(600, 1_200)]);
    assert_eq!(timer.work_seconds(at(1_800)), 600);
    assert_eq!(timer.elapsed(at(1_800)), 1_800, "the time is not cut");
    assert_eq!(timer.idle_seconds(at(1_800)), 1_200);
    assert_eq!(timer.flags(), &[Flag::UnclaimedIdle]);
    assert_consistent(&timer, at(1_800));
}

#[test]
fn input_coming_back_ends_the_idle_span_and_leaves_the_question_open() {
    let mut timer = away_timer();
    timer.idle_over(at(2_100));
    timer.tick(at(2_400));
    assert!(!timer.is_away());
    assert!(timer.has_unclaimed_idle());
    assert_eq!(timer.spans(at(2_400)), vec![work(0, 600), idle(600, 1_500), work(2_100, 300)]);
    assert_eq!(timer.work_seconds(at(2_400)), 900);
    assert_eq!(timer.idle_seconds(at(2_400)), 1_500);
    assert_eq!(timer.flags(), &[Flag::UnclaimedIdle]);
    assert_consistent(&timer, at(2_400));
}

#[test]
fn counting_the_silence_makes_it_work_and_clears_the_flag() {
    let mut timer = away_timer();
    timer.idle_over(at(2_100));
    assert!(timer.claim_idle(at(2_400), IdleDecision::Count));
    assert_eq!(timer.spans(at(2_400)), vec![work(0, 2_400)], "merged into one span");
    assert_eq!(timer.work_seconds(at(2_400)), 2_400);
    assert!(timer.flags().is_empty());
    assert!(!timer.has_unclaimed_idle());
    assert_eq!(timer.idle_seconds(at(2_400)), 0);
    assert_consistent(&timer, at(2_400));
    assert!(!timer.claim_idle(at(2_500), IdleDecision::Count), "nothing is left to claim");
}

#[test]
fn leaving_the_silence_out_keeps_it_idle_and_flagged() {
    let mut timer = away_timer();
    timer.idle_over(at(2_100));
    assert!(timer.claim_idle(at(2_400), IdleDecision::DontCount));
    assert_eq!(timer.spans(at(2_400)), vec![work(0, 600), idle(600, 1_500), work(2_100, 300)]);
    assert_eq!(timer.flags(), &[Flag::UnclaimedIdle]);
    assert!(!timer.has_unclaimed_idle(), "answered, even if left out");
    assert_consistent(&timer, at(2_400));
}

#[test]
fn turning_the_silence_into_a_break_makes_it_a_pause() {
    let mut timer = away_timer();
    timer.idle_over(at(2_100));
    assert!(timer.claim_idle(at(2_400), IdleDecision::Break));
    assert_eq!(timer.spans(at(2_400)), vec![work(0, 600), pause(600, 1_500), work(2_100, 300)]);
    assert!(timer.flags().is_empty());
    assert!(!timer.is_paused(), "history changed, not the state");
    assert_consistent(&timer, at(2_400));
}

#[test]
fn a_break_taken_just_before_the_silence_stays_a_break() {
    let mut timer = timer();
    timer.tick(at(600));
    timer.pause(at(600));
    timer.resume(at(1_200));
    // Silence for fifteen minutes since the resume; the span before the break is untouched.
    timer.idle_since(at(2_100), 900);
    assert_eq!(timer.spans(at(2_100)), vec![work(0, 600), pause(600, 600), idle(1_200, 900)]);
    assert_consistent(&timer, at(2_100));
    // Reaching further back than the break: only the work parts turn idle.
    let mut timer = timer.clone();
    timer.idle_over(at(2_100));
    timer.claim_idle(at(2_100), IdleDecision::Count);
    timer.idle_since(at(2_400), 2_000);
    assert_eq!(timer.spans(at(2_400)), vec![work(0, 400), idle(400, 200), pause(600, 600), idle(1_200, 1_200)]);
    assert_consistent(&timer, at(2_400));
    timer.idle_over(at(2_400));
    assert!(timer.claim_idle(at(2_400), IdleDecision::Break));
    assert_eq!(timer.spans(at(2_400)), vec![work(0, 400), pause(400, 2_000)], "breaks merge");
    assert_consistent(&timer, at(2_400));
}

#[test]
fn sleep_inside_the_silence_joins_it_and_the_claim_covers_the_sleep() {
    let mut timer = away_timer();
    assert_eq!(timer.tick(clocks(1_801, 3_000, 0)), vec![Notice::Suspended(3_000, SpanKind::Idle)]);
    timer.tick(clocks(2_100, 3_000, 0));
    let now = clocks(2_100, 3_000, 0);
    let slept = asleep(SpanKind::Idle, 1_800, 3_000);
    assert_eq!(timer.spans(now), vec![work(0, 600), idle(600, 1_200), slept, idle(4_800, 300)]);
    assert_eq!(timer.idle_seconds(now), 4_500, "the sleep is part of the silence");
    assert_eq!(timer.work_seconds(now), 600);
    assert_consistent(&timer, now);
    assert!(timer.claim_idle(now, IdleDecision::Count));
    assert_eq!(timer.spans(now), vec![work(0, 1_800), slept_work(1_800, 3_000), work(4_800, 300)]);
    assert_eq!(timer.work_seconds(now), 5_100);
    assert!(timer.flags().is_empty());
    assert_consistent(&timer, now);
}

#[test]
fn a_silence_noticed_after_a_sleep_leaves_the_work_counted_through_it() {
    let mut timer = timer();
    timer.tick(at(300));
    timer.tick(clocks(300, 7_200, 0));
    let now = clocks(600, 7_200, 0);
    // The silence reaches back past the sleep, to the hundredth second.
    timer.idle_since(now, 7_700);
    assert_eq!(timer.spans(now), vec![work(0, 100), idle(100, 200), slept_work(300, 7_200), idle(7_500, 300)]);
    assert_eq!(timer.work_seconds(now), 7_300);
    assert_consistent(&timer, now);
    timer.idle_over(now);
    assert!(timer.claim_idle(now, IdleDecision::Break));
    assert_eq!(timer.spans(now), vec![work(0, 100), pause(100, 200), slept_work(300, 7_200), pause(7_500, 300)]);
    assert_consistent(&timer, now);
}

#[test]
fn silence_during_a_break_changes_nothing() {
    let mut timer = timer();
    timer.tick(at(600));
    timer.pause(at(600));
    timer.idle_since(at(1_800), 900);
    assert!(!timer.is_away());
    assert!(timer.flags().is_empty());
    timer.idle_over(at(1_900));
    assert!(!timer.has_unclaimed_idle());
    assert_eq!(timer.spans(at(1_900)), vec![work(0, 600), pause(600, 1_300)]);
    assert_consistent(&timer, at(1_900));
}

#[test]
fn a_second_silence_while_the_first_is_measured_changes_nothing() {
    let mut timer = away_timer();
    timer.idle_since(at(2_000), 900);
    assert_eq!(timer.spans(at(2_000)), vec![work(0, 600), idle(600, 1_400)]);
    assert_consistent(&timer, at(2_000));
}

#[test]
fn an_earlier_silence_left_out_keeps_the_flag_when_a_later_one_is_counted() {
    let mut timer = away_timer();
    timer.idle_over(at(2_100));
    timer.claim_idle(at(2_100), IdleDecision::DontCount);
    timer.idle_since(at(3_300), 900);
    timer.idle_over(at(3_600));
    assert_eq!(timer.idle_seconds(at(3_600)), 1_200, "only the latest silence");
    assert!(timer.claim_idle(at(3_600), IdleDecision::Count));
    assert_eq!(timer.spans(at(3_600)), vec![work(0, 600), idle(600, 1_500), work(2_100, 1_500)]);
    assert_eq!(timer.flags(), &[Flag::UnclaimedIdle]);
    assert_consistent(&timer, at(3_600));
}

#[test]
fn a_silence_longer_than_the_session_reaches_back_to_its_start() {
    let mut timer = timer();
    timer.idle_since(at(300), 900);
    assert_eq!(timer.spans(at(400)), vec![idle(0, 400)]);
    assert_eq!(timer.work_seconds(at(400)), 0);
    assert_consistent(&timer, at(400));
}

#[test]
fn stopping_while_away_or_unanswered_records_the_idle_spans_and_the_flag() {
    let away = away_timer();
    let session = away.stop(at(2_000), Id::new(5, 5), WALL + 2_000);
    assert_eq!(session.spans, vec![work(0, 600), idle(600, 1_400)]);
    assert_eq!(session.flags, vec![Flag::UnclaimedIdle]);
    assert_eq!(session.work_seconds(), 600);
    assert!(check(&session.spans, 2_000).is_empty());
    let mut unanswered = away_timer();
    unanswered.idle_over(at(2_100));
    let session = unanswered.stop(at(2_400), Id::new(6, 6), WALL + 2_400);
    assert_eq!(session.spans, vec![work(0, 600), idle(600, 1_500), work(2_100, 300)]);
    assert_eq!(session.flags, vec![Flag::UnclaimedIdle]);
    assert!(check(&session.spans, 2_400).is_empty());
}

/// A counter restored from a file that says the silence from ten minutes in, fifteen minutes
/// long, was never answered; the program died five minutes after input came back.
fn restored_with_pending_idle() -> Timer {
    let spans = vec![work(0, 600), idle(600, 900), work(1_500, 300)];
    Timer::restore(focus_id(), WALL - 1_800, OFFSET, spans, false, WALL, WALL, at(0))
        .detects_suspend(true)
        .with_flags(vec![Flag::UnclaimedIdle])
        .with_unclaimed_idle(Some(600))
}

#[test]
fn a_restored_unanswered_silence_is_asked_about_again() {
    let timer = restored_with_pending_idle();
    assert!(timer.has_unclaimed_idle());
    assert!(!timer.is_away());
    assert_eq!(timer.unclaimed_idle_from(), Some(600));
    assert_eq!(timer.idle_seconds(at(60)), 900);
    assert_eq!(timer.work_seconds(at(60)), 960);
    assert_consistent(&timer, at(60));
}

#[test]
fn counting_a_restored_silence_makes_it_work_and_clears_the_flag() {
    let mut timer = restored_with_pending_idle();
    timer.tick(at(60));
    assert!(timer.claim_idle(at(60), IdleDecision::Count));
    assert_eq!(timer.spans(at(60)), vec![work(0, 1_860)]);
    assert!(timer.flags().is_empty());
    assert!(!timer.has_unclaimed_idle());
    assert_eq!(timer.unclaimed_idle_from(), None);
    assert_consistent(&timer, at(60));
    let session = timer.stop(at(60), Id::new(5, 5), WALL + 60);
    assert_eq!(session.work_seconds(), 1_860);
    assert!(session.flags.is_empty());
}

#[test]
fn a_counter_saved_while_away_comes_back_with_the_silence_over() {
    let spans = vec![work(0, 600), idle(600, 1_200)];
    let mut timer = Timer::restore(focus_id(), WALL - 1_800, OFFSET, spans, false, WALL - 100, WALL - 100, at(0))
        .detects_suspend(true)
        .with_flags(vec![Flag::UnclaimedIdle])
        .with_unclaimed_idle(Some(600));
    assert!(!timer.is_away(), "the silence is over; nobody measures it any more");
    assert!(timer.has_unclaimed_idle());
    timer.tick(at(30));
    assert_eq!(
        timer.spans(at(30)),
        vec![
            work(0, 600),
            idle(600, 1_200),
            Span::new(SpanKind::Gap, 1_800, 100, ClockSource::Wall),
            work(1_900, 30)
        ]
    );
    assert_eq!(timer.idle_seconds(at(30)), 1_200, "the unseen time is not part of the silence");
    assert!(timer.claim_idle(at(30), IdleDecision::Break));
    assert_eq!(
        timer.spans(at(30)),
        vec![
            work(0, 600),
            pause(600, 1_200),
            Span::new(SpanKind::Gap, 1_800, 100, ClockSource::Wall),
            work(1_900, 30)
        ]
    );
    assert!(timer.flags().is_empty());
    assert_consistent(&timer, at(30));
}

#[test]
fn nothing_is_asked_about_when_no_idle_span_lies_where_the_file_says() {
    let spans = vec![work(0, 600), idle(600, 300), work(900, 300)];
    let restore = || Timer::restore(focus_id(), WALL - 1_200, OFFSET, spans.clone(), false, WALL, WALL, at(0));
    assert!(!restore().with_unclaimed_idle(Some(900)).has_unclaimed_idle());
    assert!(!restore().with_unclaimed_idle(None).has_unclaimed_idle());
    assert!(restore().with_unclaimed_idle(Some(700)).has_unclaimed_idle(), "inside the silence still counts");
}

#[test]
fn a_running_timer_says_where_the_unanswered_silence_began() {
    let mut timer = away_timer();
    assert_eq!(timer.unclaimed_idle_from(), Some(600), "while away");
    timer.idle_over(at(2_100));
    assert_eq!(timer.unclaimed_idle_from(), Some(600), "while waiting for the answer");
    timer.claim_idle(at(2_100), IdleDecision::DontCount);
    assert_eq!(timer.unclaimed_idle_from(), None);
}

#[test]
fn a_session_far_past_the_largest_span_saturates_instead_of_wrapping() {
    let mut timer = timer();
    let far = Clocks { wall: WALL, uptime: Uptime { awake: Duration::MAX.as_nanos(), elapsed: Duration::MAX.as_nanos() } };
    timer.tick(far);
    assert_eq!(timer.elapsed(far), u32::MAX);
    assert_consistent(&timer, far);
}
