use qfocus::id::Id;
use qfocus::tree::{Category, Focus, Goal, Order, Period, Tree};
use qfocus::readouts::{AgoUnit, GoalRow, ago, hours_text};

#[test]
fn how_long_ago_is_said_in_the_largest_unit_that_fits() {
    assert_eq!(ago(0), (AgoUnit::Seconds, 0));
    assert_eq!(ago(59), (AgoUnit::Seconds, 59));
    assert_eq!(ago(60), (AgoUnit::Minutes, 1));
    assert_eq!(ago(3_599), (AgoUnit::Minutes, 59));
    assert_eq!(ago(3_600), (AgoUnit::Hours, 1));
    assert_eq!(ago(86_399), (AgoUnit::Hours, 23));
    assert_eq!(ago(86_400 * 3), (AgoUnit::Days, 3));
    assert_eq!(ago(u64::MAX), (AgoUnit::Days, u32::MAX));
}

#[test]
fn hours_are_read_to_the_nearest_tenth() {
    assert_eq!(hours_text(3_600), "1");
    assert_eq!(hours_text(5_400), "1.5");
    assert_eq!(hours_text(60), "0");
    assert_eq!(hours_text(180), "0.1");
    assert_eq!(hours_text(36_000), "10");
}

#[test]
fn a_goal_reads_in_hours_from_an_hour_and_in_minutes_below() {
    let row = GoalRow { id: Id::new(1, 1), name: "Rust".to_owned(), done: 5_400, amount: 7_200 };
    assert!(!row.reached());
    assert_eq!(row.value_parts(), ("1.5".to_owned(), "2".to_owned(), true));
    let short = GoalRow { id: Id::new(1, 1), name: "Rust".to_owned(), done: 1_800, amount: 1_800 };
    assert!(short.reached());
    assert_eq!(short.value_parts(), ("30".to_owned(), "30".to_owned(), false));
}

fn work_on_the_18th(focus: qfocus::id::Id, hour: u8, seconds: u32) -> qfocus::session::Session {
    let started = qframe::date::DateTime {
        date: qframe::date::Date::new(2026, 9, 18).expect("valid date"),
        time: qframe::date::TimeOfDay::new(hour, 0, 0),
        offset_minutes: 180,
    }
    .to_unix();
    qfocus::session::Session {
        id: qfocus::id::Id::new(u64::from(hour), 1),
        revision: 1,
        written: started + i64::from(seconds),
        focus,
        started,
        offset_minutes: 180,
        ended: started + i64::from(seconds),
        spans: vec![qfocus::span::Span::new(
            qfocus::span::SpanKind::Work,
            0,
            seconds,
            qfocus::span::ClockSource::Mono,
        )],
        source: qfocus::session::Source::Timer,
        replaces: None,
        voids: None,
        continues: None,
        flags: Vec::new(),
        note: String::new(),
    }
}

#[test]
fn goal_rows_put_a_category_before_its_focuses_and_count_the_running_work() {
    let hour = Goal { amount: 3_600, period: Period::Day };
    let focus = |id: Id, archived: bool, goal: Option<Goal>| Focus {
        id,
        name: format!("focus {}", id.millis()),
        goal,
        archived,
        order: Order { written: None, place: 0 },
    };
    let catalog = Tree {
        categories: vec![
            Category {
                id: Id::new(1, 1),
                name: "Work".to_owned(),
                icon: None,
                goal: Some(Goal { amount: 7_200, period: Period::Week }),
                archived: false,
                order: Order { written: None, place: 0 },
                focuses: vec![focus(Id::new(11, 1), false, Some(hour)), focus(Id::new(12, 1), true, Some(hour))],
            },
            Category {
                id: Id::new(2, 2),
                name: "Old".to_owned(),
                icon: None,
                goal: Some(hour),
                archived: true,
                order: Order { written: None, place: 1 },
                focuses: Vec::new(),
            },
        ],
    };
    let sessions = [work_on_the_18th(Id::new(11, 1), 9, 600), work_on_the_18th(Id::new(12, 1), 10, 300)];
    let today = qframe::date::Date::new(2026, 9, 18).expect("valid date").to_days();
    let midnight = qfocus::prefs::TimeOfDay::new(0, 0, 0);
    let rows = qfocus::readouts::goal_rows_given(
        &catalog,
        &sessions,
        today,
        qfocus::prefs::Weekday::Monday,
        midnight,
        Some((Id::new(11, 1), 60)),
    );
    let seen: Vec<(Id, u64, u64)> = rows.iter().map(|row| (row.id, row.done, row.amount)).collect();
    assert_eq!(seen, vec![(Id::new(1, 1), 960, 7_200), (Id::new(11, 1), 660, 3_600)]);
    assert_eq!(rows[0].name, "Work");
}
