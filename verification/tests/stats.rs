use qfocus::id::Id;
use qfocus::prefs::{TimeOfDay, Weekday};
use qfocus::session::{Session, Source};
use qfocus::span::{ClockSource, Span, SpanKind};
use qfocus::stats::{
    Block, CategoryDays, Edge, Range, by_category, compare, daily, day_at, goal_progress, goal_range, hourly,
    session_count_and_mean, strip, tone_of, top_focuses, total,
};
use qfocus::store::running::{Running, Watch};
use qfocus::tree::{Category, Focus, Goal, Order, Period, Tree};

use qframe::date::{Date, DateTime};
use qframe::theme::SERIES_COLORS;

#[test]
fn comparison_carries_the_sign() {
    assert_eq!(compare(3_600, 1_800), 1_800);
    assert_eq!(compare(1_800, 3_600), -1_800);
    assert_eq!(compare(0, 0), 0);
}

#[test]
fn a_comparison_holds_each_side_to_an_i64_first() {
    assert_eq!(compare(u64::MAX, 0), i64::MAX);
    assert_eq!(compare(0, u64::MAX), -i64::MAX);
}

#[test]
fn a_category_total_adds_its_days_and_stops_at_the_top() {
    let days = CategoryDays { category: Some(Id::new(1, 1)), days: vec![60, 120, 0, 30] };
    assert_eq!(days.total(), 210);
    let full = CategoryDays { category: None, days: vec![u64::MAX, 5] };
    assert_eq!(full.total(), u64::MAX);
}

/// Istanbul, three hours ahead of UTC.
const OFFSET: i16 = 180;

fn midnight() -> TimeOfDay {
    TimeOfDay::new(0, 0, 0)
}

/// The day number of 2026-09-`day`.
fn date(day: u8) -> i64 {
    Date::new(2026, 9, day).expect("valid date").to_days()
}

/// A session of `spans` starting at local `hour:minute` on 2026-09-`day`.
fn session_on(day: u8, focus: Id, hour: u8, minute: u8, spans: Vec<Span>) -> Session {
    let local = DateTime {
        date: Date::new(2026, 9, day).expect("valid date"),
        time: qframe::date::TimeOfDay::new(hour, minute, 0),
        offset_minutes: OFFSET,
    };
    let started = local.to_unix();
    let ended = started + spans.last().map_or(0, |span| span.end() as i64);
    Session {
        id: Id::new(u64::from(day) * 100 + u64::from(hour), 1),
        revision: 1,
        written: ended,
        focus,
        started,
        offset_minutes: OFFSET,
        ended,
        spans,
        source: Source::Timer,
        replaces: None,
        voids: None,
        continues: None,
        flags: Vec::new(),
        note: String::new(),
    }
}

fn work(day: u8, focus: Id, hour: u8, minute: u8, seconds: u32) -> Session {
    session_on(day, focus, hour, minute, vec![Span::new(SpanKind::Work, 0, seconds, ClockSource::Mono)])
}

fn focus(id: Id, archived: bool) -> Focus {
    Focus { id, name: String::new(), goal: None, archived, order: Order { written: None, place: 0 } }
}

fn catalog() -> Tree {
    Tree {
        categories: vec![
            Category {
                id: Id::new(1, 1),
                name: "Work".to_owned(),
                icon: None,
                goal: None,
                archived: false,
                order: Order { written: None, place: 0 },
                focuses: vec![focus(Id::new(11, 1), false), focus(Id::new(12, 1), true)],
            },
            Category {
                id: Id::new(2, 2),
                name: "Study".to_owned(),
                icon: None,
                goal: None,
                archived: true,
                order: Order { written: None, place: 1 },
                focuses: vec![focus(Id::new(21, 2), false)],
            },
        ],
    }
}

#[test]
fn a_span_crossing_an_hour_is_shared_between_the_hours() {
    let session = work(18, Id::new(11, 1), 13, 30, 5_400);
    let hours = hourly(&[session], date(18), midnight());
    assert_eq!(hours[13], 1_800);
    assert_eq!(hours[14], 3_600);
    assert_eq!(hours.iter().sum::<u64>(), 5_400);
}

#[test]
fn breaks_are_not_in_the_hours_and_the_work_after_them_lands_where_it_was() {
    let spans = vec![
        Span::new(SpanKind::Work, 0, 1_800, ClockSource::Mono),
        Span::new(SpanKind::Pause, 1_800, 1_800, ClockSource::Mono),
        Span::new(SpanKind::Work, 3_600, 600, ClockSource::Mono),
    ];
    let session = session_on(18, Id::new(11, 1), 9, 0, spans);
    let hours = hourly(&[session], date(18), midnight());
    assert_eq!(hours[9], 1_800);
    assert_eq!(hours[10], 600);
}

#[test]
fn a_session_past_midnight_stays_on_the_day_it_began() {
    let session = work(18, Id::new(11, 1), 23, 30, 3_600);
    let rollover = midnight();
    assert_eq!(daily(std::slice::from_ref(&session), Range::new(date(18), 2), rollover), vec![3_600, 0]);
    let hours = hourly(&[session], date(18), rollover);
    assert_eq!(hours[23], 1_800);
    assert_eq!(hours[0], 1_800, "the small hours are drawn where they were lived");
}

#[test]
fn daily_totals_follow_the_range_and_ignore_what_is_outside_it() {
    let sessions = [
        work(17, Id::new(11, 1), 9, 0, 100),
        work(18, Id::new(11, 1), 9, 0, 200),
        work(18, Id::new(21, 2), 15, 0, 300),
        work(20, Id::new(11, 1), 9, 0, 400),
    ];
    let range = Range::new(date(18), 2);
    assert_eq!(daily(&sessions, range, midnight()), vec![500, 0]);
    assert_eq!(total(&sessions, range, midnight()), 500);
    assert_eq!(total(&sessions, range.previous(), midnight()), 100);
    assert_eq!(range.previous().from, date(16));
    assert_eq!(range.end(), date(20));
}

#[test]
fn categories_include_archived_focuses_and_archived_categories() {
    let sessions = [
        work(18, Id::new(11, 1), 9, 0, 100),
        work(18, Id::new(12, 1), 10, 0, 50),
        work(19, Id::new(21, 2), 9, 0, 70),
        work(19, Id::new(99, 9), 9, 0, 5),
    ];
    let shares = by_category(&sessions, Range::new(date(18), 2), &catalog(), midnight());
    let work_share = shares.iter().find(|share| share.category == Some(Id::new(1, 1))).expect("Work");
    assert_eq!(work_share.days, vec![150, 0], "the archived focus counts");
    let study = shares.iter().find(|share| share.category == Some(Id::new(2, 2))).expect("Study");
    assert_eq!(study.total(), 70, "the archived category counts");
    assert_eq!(shares.last().map(|share| (share.category, share.total())), Some((None, 5)), "unknown last");
    assert_eq!(shares.len(), 3);
}

#[test]
fn a_goal_is_measured_over_its_day_week_or_month() {
    let rust = Id::new(11, 1);
    let sessions = [
        work(18, rust, 9, 0, 3_600),
        work(17, rust, 9, 0, 1_800),
        work(13, rust, 9, 0, 600),
        work(1, rust, 9, 0, 60),
    ];
    let progress = |period: Period| {
        goal_progress(Goal { amount: 7_200, period }, &[rust], &sessions, date(18), Weekday::Monday, midnight())
    };
    assert_eq!(progress(Period::Day), (3_600, 7_200));
    assert_eq!(progress(Period::Week), (5_400, 7_200), "the 13th is the Sunday before this week");
    assert_eq!(progress(Period::Month), (6_060, 7_200));
    let sunday_first = goal_progress(
        Goal { amount: 7_200, period: Period::Week },
        &[rust],
        &sessions,
        date(18),
        Weekday::Sunday,
        midnight(),
    );
    assert_eq!(sunday_first.0, 6_000, "with the week from Sunday the 13th is in it");
    assert_eq!(goal_range(Period::Month, date(18), Weekday::Monday).days, 30);
}

#[test]
fn a_category_goal_sums_its_focuses_archived_ones_included() {
    let sessions = [
        work(18, Id::new(11, 1), 9, 0, 100),
        work(18, Id::new(12, 1), 10, 0, 50),
        work(18, Id::new(21, 2), 11, 0, 70),
    ];
    let catalog = catalog();
    let focuses: Vec<Id> = catalog.categories[0].focuses.iter().map(|focus| focus.id).collect();
    let goal = Goal { amount: 600, period: Period::Day };
    assert_eq!(goal_progress(goal, &focuses, &sessions, date(18), Weekday::Monday, midnight()), (150, 600));
    assert_eq!(goal_progress(goal, &[], &sessions, date(18), Weekday::Monday, midnight()), (0, 600));
}

#[test]
fn the_top_focuses_are_ranked_and_cut() {
    let sessions = [
        work(18, Id::new(11, 1), 9, 0, 100),
        work(18, Id::new(11, 1), 11, 0, 100),
        work(18, Id::new(12, 1), 10, 0, 150),
        work(18, Id::new(21, 2), 12, 0, 20),
    ];
    let top = top_focuses(&sessions, Range::day(date(18)), 2, midnight());
    assert_eq!(top, vec![(Id::new(11, 1), 200), (Id::new(12, 1), 150)]);
}

#[test]
fn the_session_count_and_the_mean_are_over_the_range_only() {
    let sessions = [
        work(18, Id::new(11, 1), 9, 0, 100),
        work(18, Id::new(11, 1), 11, 0, 300),
        work(25, Id::new(11, 1), 11, 0, 900),
    ];
    assert_eq!(session_count_and_mean(&sessions, Range::new(date(14), 7), midnight()), (2, 200));
    assert_eq!(session_count_and_mean(&sessions, Range::day(date(1)), midnight()), (0, 0));
}

#[test]
fn tones_follow_the_order_categories_were_made_in_and_wrap() {
    let mut catalog = catalog();
    // Study was made after Work, however the catalogue orders them.
    catalog.categories.swap(0, 1);
    assert_eq!(tone_of(&catalog, Some(Id::new(1, 1))), 0);
    assert_eq!(tone_of(&catalog, Some(Id::new(2, 2))), 1, "the archived category keeps its tone");
    assert_eq!(tone_of(&catalog, None), 2, "no category comes after the last one");
    for stamp in 3..=SERIES_COLORS as u64 {
        catalog.categories.push(Category {
            id: Id::new(stamp, stamp.into()),
            name: String::new(),
            icon: None,
            goal: None,
            archived: false,
            order: Order { written: None, place: 0 },
            focuses: Vec::new(),
        });
    }
    assert_eq!(tone_of(&catalog, Some(Id::new(1, 1))), 0, "adding categories changes no tone");
    assert_eq!(tone_of(&catalog, None), 0, "the sixth wraps to the first tone");
}

#[test]
fn two_focuses_in_one_hour_are_two_blocks_and_a_break_is_a_hole() {
    let spans = vec![
        Span::new(SpanKind::Work, 0, 1_200, ClockSource::Mono),
        Span::new(SpanKind::Pause, 1_200, 600, ClockSource::Mono),
        Span::new(SpanKind::Work, 1_800, 600, ClockSource::Mono),
    ];
    let sessions = [session_on(18, Id::new(11, 1), 9, 0, spans), work(18, Id::new(21, 2), 9, 45, 900)];
    let blocks = strip(&sessions, None, date(18), midnight());
    let placed: Vec<(u32, u32, Id)> = blocks.iter().map(|block| (block.from, block.seconds, block.focus)).collect();
    assert_eq!(
        placed,
        vec![
            (9 * 3_600, 1_200, Id::new(11, 1)),
            (9 * 3_600 + 1_800, 600, Id::new(11, 1)),
            (9 * 3_600 + 2_700, 900, Id::new(21, 2)),
        ]
    );
    assert!(blocks.iter().all(|block| block.edge == Edge::Whole));
    assert!(strip(&sessions, None, date(19), midnight()).is_empty(), "another day holds nothing");
}

#[test]
fn a_session_past_the_end_of_the_day_is_open_ended_and_continues_on_the_next() {
    let session = work(18, Id::new(11, 1), 23, 30, 3_600);
    let rollover = midnight();
    let today = strip(std::slice::from_ref(&session), None, date(18), rollover);
    assert_eq!(
        today,
        vec![Block { from: 23 * 3_600 + 1_800, seconds: 1_800, focus: Id::new(11, 1), edge: Edge::PastEnd }]
    );
    let tomorrow = strip(std::slice::from_ref(&session), None, date(19), rollover);
    assert_eq!(tomorrow, vec![Block { from: 0, seconds: 1_800, focus: Id::new(11, 1), edge: Edge::Continued }]);
    // With the day turning at four, the same session lies whole in the day of the 18th.
    let late = TimeOfDay::new(4, 0, 0);
    let whole = strip(std::slice::from_ref(&session), None, date(18), late);
    assert_eq!(
        whole,
        vec![Block { from: 19 * 3_600 + 1_800, seconds: 3_600, focus: Id::new(11, 1), edge: Edge::Whole }]
    );
    assert!(strip(std::slice::from_ref(&session), None, date(19), late).is_empty());
}

#[test]
fn the_running_counter_is_an_open_block_unless_it_is_on_a_break() {
    let started = DateTime {
        date: Date::new(2026, 9, 18).expect("valid date"),
        time: qframe::date::TimeOfDay::new(14, 0, 0),
        offset_minutes: OFFSET,
    }
    .to_unix();
    let mut counter = Running {
        focus: Id::new(11, 1),
        started,
        offset_minutes: OFFSET,
        spans: vec![Span::new(SpanKind::Work, 0, 900, ClockSource::Mono)],
        paused: false,
        refreshed: started + 900,
        flags: Vec::new(),
        target: None,
        idle_from: None,
        watch: Watch::Window,
    };
    let blocks = strip(&[], Some(&counter), date(18), midnight());
    assert_eq!(blocks, vec![Block { from: 14 * 3_600, seconds: 900, focus: Id::new(11, 1), edge: Edge::Running }]);
    counter.spans.push(Span::new(SpanKind::Pause, 900, 300, ClockSource::Mono));
    counter.paused = true;
    let blocks = strip(&[], Some(&counter), date(18), midnight());
    assert_eq!(blocks.len(), 1);
    assert_eq!(blocks[0].edge, Edge::Whole, "on a break the work so far is closed and the break is a hole");
}

#[test]
fn a_moment_before_the_rollover_counts_under_the_day_before() {
    let one_in_the_night = work(19, Id::new(11, 1), 1, 0, 60);
    let four = TimeOfDay::new(4, 0, 0);
    assert_eq!(day_at(one_in_the_night.started, OFFSET, four), date(18));
    assert_eq!(day_at(one_in_the_night.started, OFFSET, midnight()), date(19));
    assert_eq!(daily(&[one_in_the_night], Range::new(date(18), 2), four), vec![60, 0]);
}

#[test]
fn a_range_is_at_least_a_day_and_finds_only_its_own_days() {
    let range = Range::new(date(18), 0);
    assert_eq!(range.days, 1);
    assert_eq!(range.index_of(date(18)), Some(0));
    assert_eq!(range.index_of(date(19)), None);
    assert_eq!(range.index_of(date(17)), None);
    assert_eq!(Range::new(date(18), 7).index_of(date(24)), Some(6));
}

#[test]
fn focuses_with_equal_work_rank_the_older_first() {
    let sessions = [work(18, Id::new(12, 1), 9, 0, 100), work(18, Id::new(11, 1), 10, 0, 100)];
    let top = top_focuses(&sessions, Range::day(date(18)), 5, midnight());
    assert_eq!(top, vec![(Id::new(11, 1), 100), (Id::new(12, 1), 100)]);
}

#[test]
fn the_categories_come_in_tone_order_with_the_lost_focus_last() {
    let sessions = [
        work(18, Id::new(99, 9), 8, 0, 5),
        work(18, Id::new(21, 2), 9, 0, 70),
        work(18, Id::new(11, 1), 10, 0, 100),
    ];
    let shares = by_category(&sessions, Range::day(date(18)), &catalog(), midnight());
    let order: Vec<Option<Id>> = shares.iter().map(|share| share.category).collect();
    assert_eq!(order, vec![Some(Id::new(1, 1)), Some(Id::new(2, 2)), None]);
}

#[test]
fn a_week_from_monday_starts_on_the_monday_on_or_before_the_day() {
    // 2026-09-18 is a Friday; the Monday before is the 14th.
    assert_eq!(goal_range(Period::Week, date(18), Weekday::Monday), Range { from: date(14), days: 7 });
    assert_eq!(goal_range(Period::Week, date(14), Weekday::Monday), Range { from: date(14), days: 7 });
    assert_eq!(goal_range(Period::Day, date(18), Weekday::Monday), Range { from: date(18), days: 1 });
    assert_eq!(goal_range(Period::Month, date(18), Weekday::Monday).from, date(1));
}
