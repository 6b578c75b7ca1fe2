use std::cell::Cell;

use qfocus::id::Id;
use qfocus::liveness::{Cut, Reach, Reason, RESTART_MARGIN, SEEN_EVERY, WINDOW_STALE, reach, reach_without_window, stamp_to_leave};
use qfocus::span::{ClockSource, Span, SpanKind};
use qfocus::store::running::{Running, Watch};
use qfocus::store::seen::Seen;
use qfocus::timer::{Clocks, Uptime};

/// 2026-09-18 10:00:00 UTC, when the counter started.
const STARTED: i64 = 1_789_725_600;

fn counter(watch: Watch, refreshed: i64) -> Running {
    Running {
        focus: Id::new(1, 1),
        started: STARTED,
        offset_minutes: 180,
        spans: vec![Span::new(SpanKind::Work, 0, 60, ClockSource::Mono)],
        paused: false,
        refreshed,
        flags: Vec::new(),
        target: None,
        idle_from: None,
        watch,
    }
}

/// The wall clock at `wall` on a machine that booted at `boot`.
fn clocks(wall: i64, boot: i64) -> Clocks {
    let since = u128::try_from(wall - boot).expect("after boot") * 1_000_000_000;
    Clocks { wall, uptime: Uptime { awake: since, elapsed: since } }
}

/// A window check that must not be asked.
fn never() -> bool {
    panic!("the window was asked about")
}

const HOUR: i64 = 3_600;

#[test]
fn a_counter_nobody_measures_counts_to_now_on_the_same_boot() {
    let running = counter(Watch::Nobody, STARTED);
    let now = STARTED + 5 * HOUR;
    let reach = reach(&running, None, clocks(now, STARTED - HOUR), true, never);
    assert_eq!(reach, Reach { until: now, cut: None });
}

#[test]
fn a_counter_nobody_measures_stops_at_its_refresh_when_the_machine_restarted() {
    let running = counter(Watch::Nobody, STARTED);
    let now = STARTED + 20 * HOUR;
    let reach = reach(&running, None, clocks(now, STARTED + 10 * HOUR), true, never);
    assert_eq!(reach, Reach { until: STARTED, cut: Some(Cut { at: STARTED, reason: Reason::Restart }) });
}

#[test]
fn a_later_stamp_of_the_same_counter_moves_the_cut() {
    let running = counter(Watch::Nobody, STARTED);
    let seen = Seen { started: STARTED, seen: STARTED + 2 * HOUR };
    let reach = reach(&running, Some(&seen), clocks(STARTED + 20 * HOUR, STARTED + 10 * HOUR), true, never);
    assert_eq!(reach.until, STARTED + 2 * HOUR);
    assert_eq!(reach.cut.map(|cut| cut.reason), Some(Reason::Restart));
}

#[test]
fn a_stamp_of_another_counter_or_older_than_the_refresh_is_ignored() {
    let running = counter(Watch::Nobody, STARTED + HOUR);
    let now = clocks(STARTED + 20 * HOUR, STARTED + 10 * HOUR);
    let foreign = Seen { started: STARTED - HOUR, seen: STARTED + 5 * HOUR };
    assert_eq!(reach(&running, Some(&foreign), now, true, never).until, STARTED + HOUR);
    let stale = Seen { started: STARTED, seen: STARTED + 30 };
    assert_eq!(reach(&running, Some(&stale), now, true, never).until, STARTED + HOUR);
}

#[test]
fn a_boot_within_the_margin_of_the_proof_is_not_a_restart() {
    let running = counter(Watch::Nobody, STARTED);
    let now = STARTED + HOUR;
    assert_eq!(reach(&running, None, clocks(now, STARTED + RESTART_MARGIN), true, never).cut, None);
    assert!(reach(&running, None, clocks(now, STARTED + RESTART_MARGIN + 1), true, never).cut.is_some());
}

#[test]
fn without_knowing_the_boot_a_counter_nobody_measures_counts_to_now() {
    let running = counter(Watch::Nobody, STARTED);
    let now = STARTED + 20 * HOUR;
    let reach = reach(&running, None, clocks(now, STARTED + 10 * HOUR), false, never);
    assert_eq!(reach, Reach { until: now, cut: None });
}

#[test]
fn a_window_refreshed_lately_is_alive_without_asking() {
    let running = counter(Watch::Window, STARTED);
    let now = STARTED + WINDOW_STALE;
    assert_eq!(reach(&running, None, clocks(now, STARTED - HOUR), true, never), Reach { until: now, cut: None });
}

#[test]
fn a_stale_window_is_asked_and_stops_at_its_refresh_when_gone() {
    let running = counter(Watch::Window, STARTED);
    let now = STARTED + HOUR;
    let asked = Cell::new(false);
    let reach = reach(&running, None, clocks(now, STARTED - HOUR), true, || {
        asked.set(true);
        false
    });
    assert!(asked.get());
    assert_eq!(reach, Reach { until: STARTED, cut: Some(Cut { at: STARTED, reason: Reason::WindowGone }) });
}

#[test]
fn a_stale_window_that_still_holds_the_lock_counts_to_now() {
    // The machine slept an hour and the window has not ticked since waking.
    let running = counter(Watch::Window, STARTED);
    let now = STARTED + HOUR;
    assert_eq!(reach(&running, None, clocks(now, STARTED - HOUR), true, || true), Reach { until: now, cut: None });
}

#[test]
fn an_instance_with_the_lock_ends_a_window_counter_at_its_refresh_however_fresh() {
    let window = counter(Watch::Window, STARTED);
    let now = clocks(STARTED + 5, STARTED - HOUR);
    let cut = Some(Cut { at: STARTED, reason: Reason::WindowGone });
    assert_eq!(reach_without_window(&window, None, now, true), Reach { until: STARTED, cut });
    let alone = counter(Watch::Nobody, STARTED);
    assert_eq!(reach_without_window(&alone, None, now, true), Reach { until: STARTED + 5, cut: None });
}

#[test]
fn a_window_gone_with_a_restart_says_the_restart() {
    let running = counter(Watch::Window, STARTED);
    let reach = reach(&running, None, clocks(STARTED + 20 * HOUR, STARTED + 10 * HOUR), true, || false);
    assert_eq!(reach.cut, Some(Cut { at: STARTED, reason: Reason::Restart }));
}

#[test]
fn a_wall_clock_behind_the_refresh_reaches_the_refresh() {
    let running = counter(Watch::Nobody, STARTED);
    let reach = reach(&running, None, clocks(STARTED - 100, STARTED - HOUR), true, never);
    assert_eq!(reach, Reach { until: STARTED, cut: None });
}

#[test]
fn a_stamp_is_left_at_most_once_a_minute_and_only_for_a_live_counter_nobody_measures() {
    let running = counter(Watch::Nobody, STARTED);
    let boot = STARTED - HOUR;
    let alive = |now: i64| reach(&running, None, clocks(now, boot), true, never);
    let now = STARTED + SEEN_EVERY - 1;
    assert_eq!(stamp_to_leave(&running, None, &alive(now), now, true), None, "the start is proof enough");
    let now = STARTED + SEEN_EVERY;
    let stamp = stamp_to_leave(&running, None, &alive(now), now, true);
    assert_eq!(stamp, Some(Seen { started: STARTED, seen: now }));
    let fresh = Seen { started: STARTED, seen: now };
    let later = now + 30;
    assert_eq!(stamp_to_leave(&running, Some(&fresh), &alive(later), later, true), None);
    let later = now + SEEN_EVERY;
    assert!(stamp_to_leave(&running, Some(&fresh), &alive(later), later, true).is_some());
    assert_eq!(stamp_to_leave(&running, None, &alive(later), later, false), None, "no boot, no use");
    let window = counter(Watch::Window, STARTED);
    assert_eq!(stamp_to_leave(&window, None, &alive(later), later, true), None);
    let cut = Reach { until: STARTED, cut: Some(Cut { at: STARTED, reason: Reason::Restart }) };
    assert_eq!(stamp_to_leave(&running, None, &cut, later, true), None);
}

#[test]
fn the_reasons_have_their_words() {
    assert_eq!(Reason::Restart.word(), "restart");
    assert_eq!(Reason::WindowGone.word(), "window-gone");
}

#[test]
fn a_cut_on_the_same_day_is_a_time_and_on_another_day_carries_the_date() {
    // 11:30 at +03:00 on the 18th; asked at 23:00 the same day, then at noon the next.
    let at = STARTED - 5_400;
    let same_day = qfocus::liveness::moment_parts(at, STARTED + 10 * HOUR, 180);
    assert_eq!(qfocus::liveness::clock_words(&same_day), "11:30");
    assert_eq!(same_day.other_day, None);
    let next_day = qfocus::liveness::moment_parts(at, STARTED + 23 * HOUR, 180);
    assert_eq!(qfocus::liveness::clock_words(&next_day), "11:30");
    assert_eq!(next_day.other_day, Some((18, 9)));
}
