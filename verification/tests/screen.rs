use std::time::Duration;

use qfocus::id::Id;
use qfocus::screen::{Effect, Msg, Request, Screen, update};
use qfocus::timer::{Clocks, IdleDecision, Notice, Timer, Uptime};

fn at(seconds: u64) -> Clocks {
    let seconds = i64::try_from(seconds).unwrap_or(0);
    Clocks {
        wall: 1_758_124_800 + seconds,
        uptime: Uptime {
            awake: Duration::from_secs(1_000 + seconds.unsigned_abs()).as_nanos(),
            elapsed: Duration::from_secs(1_000 + seconds.unsigned_abs()).as_nanos(),
        },
    }
}

fn screen() -> Screen {
    let focus = Id::new(1, 1);
    Screen::new(Timer::start(focus, at(0), 180), at(0), "Work".to_owned(), "Rust".to_owned(), true)
}

#[test]
fn the_running_file_is_asked_for_every_five_seconds_and_on_a_break() {
    let mut screen = screen();
    let mut asked = 0;
    for second in 1..=10 {
        let (_, request) = update(&mut screen, Msg::Tick, at(second));
        if request == Some(Request::Save) {
            asked += 1;
            screen.saved(Ok(()));
        }
    }
    assert_eq!(asked, 2);
    let (_, request) = update(&mut screen, Msg::Pause, at(11));
    assert_eq!(request, Some(Request::Save));
    assert!(screen.running().paused);
    assert_eq!(screen.work_seconds(), 11);
}

#[test]
fn a_failed_save_stays_until_one_succeeds() {
    let mut screen = screen();
    screen.saved(Err("disk full".to_owned()));
    assert_eq!(screen.save_problem(), Some("disk full"));
    let _ = update(&mut screen, Msg::Tick, at(1));
    assert!(screen.save_problem().is_some());
    screen.saved(Ok(()));
    assert!(screen.save_problem().is_none());
}

#[test]
fn silence_and_its_answer_each_ask_for_the_running_file() {
    let mut screen = screen();
    let _ = update(&mut screen, Msg::Tick, at(600));
    let (_, request) = update(&mut screen, Msg::Idle(true), at(1_500));
    assert_eq!(request, Some(Request::Save));
    assert!(screen.is_away());
    assert_eq!(screen.work_seconds(), 600);
    let (_, request) = update(&mut screen, Msg::Idle(false), at(2_100));
    assert_eq!(request, Some(Request::Save));
    assert!(!screen.is_away());
    assert!(screen.is_asking_idle());
    let (_, request) = update(&mut screen, Msg::Claim(IdleDecision::Count), at(2_100));
    assert_eq!(request, Some(Request::Save));
    assert!(!screen.is_asking_idle());
    assert_eq!(screen.work_seconds(), 2_100);
    // Input coming back with no silence measured is nothing to save or ask about.
    let (_, request) = update(&mut screen, Msg::Idle(false), at(2_200));
    assert_eq!(request, None);
    assert!(!screen.is_asking_idle());
}

#[test]
fn a_countdown_is_reached_once_and_the_counter_goes_on() {
    let mut screen = screen().target(60);
    assert_eq!(screen.countdown(), Some(60));
    let (_, request) = update(&mut screen, Msg::Tick, at(30));
    assert_eq!(request, Some(Request::Save), "a plain tick: the file is due, nothing is reached");
    screen.saved(Ok(()));
    assert!(!screen.is_reached());
    let (_, request) = update(&mut screen, Msg::Tick, at(60));
    assert_eq!(request, Some(Request::Reached));
    assert!(screen.is_reached());
    let (_, request) = update(&mut screen, Msg::Tick, at(61));
    assert_eq!(request, Some(Request::Save), "said once; the file is simply due");
    assert_eq!(screen.work_seconds(), 61, "the counter did not stop");
    // A counter restored past its target is reached from the start.
    let restored =
        Screen::new(Timer::start(Id::new(1, 1), at(0), 180), at(90), "W".to_owned(), "R".to_owned(), true);
    assert!(restored.target(60).is_reached());
}

#[test]
fn the_note_goes_into_the_record() {
    let mut screen = screen();
    let _ = update(&mut screen, Msg::Note, at(1));
    let _ = update(&mut screen, Msg::NoteTyped(" reading ".to_owned()), at(2));
    let _ = update(&mut screen, Msg::NoteSubmit, at(3));
    assert!(!screen.is_editing_note());
    let (_, request) = update(&mut screen, Msg::Stop, at(60));
    assert_eq!(request, Some(Request::Stop));
    let session = screen.finish(at(60), Id::new(2, 2));
    assert_eq!(session.note, "reading");
    assert_eq!(session.work_seconds(), 60);
}

#[test]
fn the_countdown_clock_shows_what_is_left_until_it_is_reached() {
    let mut screen = screen().target(60);
    let _ = update(&mut screen, Msg::Tick, at(20));
    assert_eq!(screen.clock_seconds(), 40);
    let _ = update(&mut screen, Msg::Tick, at(60));
    assert_eq!(screen.clock_seconds(), 60, "once reached the clock shows the work again");
}

#[test]
fn each_event_says_what_to_show_and_where_the_keyboard_goes() {
    let mut screen = screen();
    let (effects, _) = update(&mut screen, Msg::Note, at(1));
    assert_eq!(effects, vec![Effect::FocusNote]);
    assert_eq!(screen.draft(), Some(""));
    let (effects, _) = update(&mut screen, Msg::NoteTyped("  ".to_owned()), at(1));
    assert!(effects.is_empty());
    let (effects, _) = update(&mut screen, Msg::NoteSubmit, at(1));
    assert_eq!(effects, vec![Effect::FocusStop], "a blank note is not announced");
    assert_eq!(screen.note(), "");
    let (effects, _) = update(&mut screen, Msg::NoteCancel, at(1));
    assert!(effects.is_empty(), "nothing was open to cancel");
    let _ = update(&mut screen, Msg::Note, at(1));
    let (effects, _) = update(&mut screen, Msg::NoteCancel, at(1));
    assert_eq!(effects, vec![Effect::Cancelled, Effect::FocusStop]);
    let _ = update(&mut screen, Msg::Note, at(1));
    let _ = update(&mut screen, Msg::NoteTyped("done".to_owned()), at(1));
    let (effects, _) = update(&mut screen, Msg::NoteSubmit, at(1));
    assert_eq!(effects, vec![Effect::NoteKept, Effect::FocusStop]);
    assert_eq!(screen.note(), "done");
}

#[test]
fn a_silence_answered_is_announced_with_its_length_and_nothing_to_answer_asks_nothing() {
    let mut screen = screen().idle_after(60);
    assert_eq!(screen.idle_threshold(), 60);
    let (effects, request) = update(&mut screen, Msg::Claim(IdleDecision::Break), at(10));
    assert!(effects.is_empty());
    assert_eq!(request, None);
    let _ = update(&mut screen, Msg::Idle(true), at(300));
    let _ = update(&mut screen, Msg::Idle(false), at(400));
    assert_eq!(screen.silence_seconds(), 160);
    let (effects, request) = update(&mut screen, Msg::Claim(IdleDecision::DontCount), at(400));
    assert_eq!(effects, vec![Effect::IdleClaimed(IdleDecision::DontCount, 160), Effect::FocusStop]);
    assert_eq!(request, Some(Request::Save));
    assert_eq!(screen.work_seconds(), 240);
}

#[test]
fn a_sleep_noticed_on_a_tick_is_passed_on() {
    let timer = Timer::start(Id::new(1, 1), at(0), 180).detects_suspend(true);
    let mut screen = Screen::new(timer, at(0), "Work".to_owned(), "Rust".to_owned(), true);
    let _ = update(&mut screen, Msg::Tick, at(10));
    let later = Clocks {
        wall: at(10).wall + 3_600 + 1,
        uptime: Uptime {
            awake: at(11).uptime.awake,
            elapsed: at(11).uptime.elapsed + Duration::from_secs(3_600).as_nanos(),
        },
    };
    let (effects, _) = update(&mut screen, Msg::Tick, later);
    assert_eq!(effects, vec![Effect::Notice(Notice::Suspended(3_600, qfocus::span::SpanKind::Work))]);
}
