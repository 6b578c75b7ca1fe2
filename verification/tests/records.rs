use qfocus::id::Id;
use qfocus::records::{Effect, Msg, Records, Request, Shown, SpanLabel, Stretch, ViewKind, session_stretches, span_label, update};
use qfocus::session::{Session, Source};
use qfocus::span::{ClockSource, Span, SpanKind};
use qfocus::today::Row;
use qfocus::tree::{Category, Focus, Order, Tree};

fn catalog() -> Tree {
    Tree {
        categories: vec![Category {
            id: Id::new(1, 1),
            name: "Work".to_owned(),
            icon: None,
            goal: None,
            archived: false,
            order: Order { written: None, place: 0 },
            focuses: vec![
                Focus {
                    id: Id::new(2, 2),
                    name: "Rust".to_owned(),
                    goal: None,
                    archived: false,
                    order: Order { written: None, place: 0 },
                },
                Focus {
                    id: Id::new(3, 3),
                    name: "Review".to_owned(),
                    goal: None,
                    archived: true,
                    order: Order { written: None, place: 1 },
                },
            ],
        }],
    }
}

fn session(id: u64, focus: Id, started: i64, note: &str) -> Session {
    Session {
        id: Id::new(id, 1),
        revision: 1,
        written: started + 600,
        focus,
        started,
        offset_minutes: 180,
        ended: started + 600,
        spans: vec![Span::new(SpanKind::Work, 0, 600, ClockSource::Mono)],
        source: Source::Timer,
        replaces: None,
        voids: None,
        continues: None,
        flags: Vec::new(),
        note: note.to_owned(),
    }
}

fn type_query(screen: &mut Records, catalog: &mut Tree, text: &str) {
    let _ = update(screen, &[], &[], catalog, Msg::Typed(text.to_owned()));
}

#[test]
fn rows_are_newest_first_and_the_filter_reads_focus_and_note() {
    let mut catalog = catalog();
    let sessions = [
        session(1, Id::new(2, 2), 1_000, "morning"),
        session(2, Id::new(3, 3), 3_000, "evening"),
        session(3, Id::new(2, 2), 2_000, ""),
    ];
    let mut screen = Records::new();
    let rows = screen.rows(&sessions, &[], &catalog);
    assert_eq!(rows.iter().map(|row| sessions[*row].started).collect::<Vec<_>>(), vec![3_000, 2_000, 1_000]);
    type_query(&mut screen, &mut catalog, "REVIEW");
    assert_eq!(screen.rows(&sessions, &[], &catalog).len(), 1);
    type_query(&mut screen, &mut catalog, "morn");
    assert_eq!(screen.rows(&sessions, &[], &catalog).len(), 1);
    type_query(&mut screen, &mut catalog, "work");
    assert_eq!(screen.rows(&sessions, &[], &catalog).len(), 3, "the category name matches too");
}

#[test]
fn delete_asks_for_the_selected_session_only_in_the_list() {
    let mut catalog = catalog();
    let sessions = [session(1, Id::new(2, 2), 1_000, ""), session(2, Id::new(2, 2), 2_000, "")];
    let mut screen = Records::new();
    let (_, request) = update(&mut screen, &sessions, &[], &mut catalog, Msg::Delete);
    assert_eq!(request, None, "nothing selected");
    let _ = update(&mut screen, &sessions, &[], &mut catalog, Msg::Select(0));
    let (_, request) = update(&mut screen, &sessions, &[], &mut catalog, Msg::Delete);
    assert_eq!(request, Some(Request::Void(Id::new(2, 1))), "the newest is first");
    let _ = update(&mut screen, &sessions, &[], &mut catalog, Msg::View(ViewKind::Trash.index()));
    assert_eq!(screen.selected(), None, "the selection does not carry over");
    let _ = update(&mut screen, &sessions, &[], &mut catalog, Msg::Select(0));
    let (_, request) = update(&mut screen, &sessions, &[], &mut catalog, Msg::Delete);
    assert_eq!(request, None, "the trash has no delete");
}

#[test]
fn activating_in_the_trash_restores_and_in_the_list_corrects_while_s_opens_the_spans() {
    let mut catalog = catalog();
    let sessions = [session(1, Id::new(2, 2), 1_000, "")];
    let voided = [session(9, Id::new(2, 2), 5_000, "")];
    let mut screen = Records::new();
    let (_, request) = update(&mut screen, &sessions, &voided, &mut catalog, Msg::Spans);
    assert_eq!(request, None, "nothing selected");
    assert!(!screen.is_dumping());
    let (_, request) = update(&mut screen, &sessions, &voided, &mut catalog, Msg::Activate(0));
    assert_eq!(request, Some(Request::Correct(Id::new(1, 1))));
    assert!(!screen.is_dumping());
    let (_, request) = update(&mut screen, &sessions, &voided, &mut catalog, Msg::Spans);
    assert_eq!(request, None);
    assert!(screen.is_dumping());
    let _ = update(&mut screen, &sessions, &voided, &mut catalog, Msg::CloseDump);
    assert!(!screen.is_dumping());
    let (_, request) = update(&mut screen, &sessions, &voided, &mut catalog, Msg::Add);
    assert_eq!(request, Some(Request::Add));
    let _ = update(&mut screen, &sessions, &voided, &mut catalog, Msg::View(ViewKind::Trash.index()));
    let (_, request) = update(&mut screen, &sessions, &voided, &mut catalog, Msg::Activate(0));
    assert_eq!(request, Some(Request::Restore(Id::new(9, 1))));
}

#[test]
fn activating_an_archived_focus_brings_it_back() {
    let mut catalog = catalog();
    let mut screen = Records::new();
    let _ = update(&mut screen, &[], &[], &mut catalog, Msg::View(ViewKind::Archive.index()));
    assert_eq!(screen.archived(&catalog), vec![Row::Focus(Id::new(3, 3))]);
    let (effect, request) = update(&mut screen, &[], &[], &mut catalog, Msg::Activate(0));
    assert_eq!(request, Some(Request::Changed));
    assert_eq!(effect, Some(Effect::Restored("Review".to_owned())));
    assert!(!catalog.categories[0].focuses[1].archived);
    assert!(screen.archived(&catalog).is_empty());
}

#[test]
fn a_sessions_blocks_are_its_work_breaks_and_idle_time_and_sleep_is_a_hole() {
    let mut session = session(1, Id::new(2, 2), 1_000, "");
    session.spans = vec![
        Span::new(SpanKind::Work, 0, 600, ClockSource::Mono),
        Span::new(SpanKind::Gap, 600, 7_200, ClockSource::Boot),
        Span::new(SpanKind::Pause, 7_800, 300, ClockSource::Mono),
        Span::new(SpanKind::Idle, 8_100, 900, ClockSource::Mono),
    ];
    session.ended = session.started + 9_000;
    let at = |seconds: i64| session.started + seconds;
    assert_eq!(
        session_stretches(&session),
        vec![
            Stretch { label: SpanLabel::Kind(SpanKind::Work), start: at(0), end: at(600), tone: 0 },
            Stretch { label: SpanLabel::Kind(SpanKind::Pause), start: at(7_800), end: at(8_100), tone: 1 },
            Stretch { label: SpanLabel::Kind(SpanKind::Idle), start: at(8_100), end: at(9_000), tone: 2 },
        ]
    );
    let mut screen = Records::new();
    let mut catalog = catalog();
    let _ = update(&mut screen, &[], &[], &mut catalog, Msg::DumpBlock(1));
    assert_eq!(screen.dump_block(), Some(1));
    let _ = update(&mut screen, &[], &[], &mut catalog, Msg::CloseDump);
    assert_eq!(screen.dump_block(), None, "closing forgets the block");
}

#[test]
fn a_span_counted_through_sleep_says_so_and_a_gap_says_why_it_was_not_measured() {
    let work = Span::new(SpanKind::Work, 0, 600, ClockSource::Mono);
    let slept = Span::new(SpanKind::Work, 600, 7_200, ClockSource::Boot);
    assert_eq!(span_label(&work), SpanLabel::Kind(SpanKind::Work));
    assert_eq!(span_label(&slept), SpanLabel::Asleep(SpanKind::Work));
    assert_ne!(span_label(&slept), span_label(&work));
    let old_sleep = Span::new(SpanKind::Gap, 0, 60, ClockSource::Boot);
    let down = Span::new(SpanKind::Gap, 0, 60, ClockSource::Wall);
    assert_eq!(span_label(&old_sleep), SpanLabel::Kind(SpanKind::Gap));
    assert_eq!(span_label(&down), SpanLabel::Down);
}

#[test]
fn the_problems_view_lists_the_sessions_whose_focus_is_gone_and_attaches_them() {
    let mut catalog = catalog();
    let sessions = [session(1, Id::new(2, 2), 1_000, ""), session(2, Id::new(7, 7), 2_000, "")];
    let mut screen = Records::new();
    let _ = update(&mut screen, &sessions, &[], &mut catalog, Msg::View(ViewKind::Problems.index()));
    let rows = screen.rows(&sessions, &[], &catalog);
    assert_eq!(rows.iter().map(|row| sessions[*row].id).collect::<Vec<_>>(), vec![Id::new(2, 1)]);
    let (_, request) = update(&mut screen, &sessions, &[], &mut catalog, Msg::Activate(0));
    assert_eq!(request, Some(Request::Attach(Id::new(2, 1))));
    let (_, request) = update(&mut screen, &sessions, &[], &mut catalog, Msg::Correct);
    assert_eq!(request, Some(Request::Attach(Id::new(2, 1))), "the button asks the same");
    let (_, request) = update(&mut screen, &sessions, &[], &mut catalog, Msg::Spans);
    assert_eq!(request, None);
    assert!(!screen.is_dumping(), "the spans are laid out from the list only");
}

#[test]
fn the_search_field_closes_and_the_filter_stays() {
    let mut catalog = catalog();
    let mut screen = Records::new();
    let _ = update(&mut screen, &[], &[], &mut catalog, Msg::Search);
    assert!(screen.is_searching());
    let _ = update(&mut screen, &[], &[], &mut catalog, Msg::Typed("rust".to_owned()));
    let _ = update(&mut screen, &[], &[], &mut catalog, Msg::SearchClose);
    assert!(!screen.is_searching());
    assert_eq!(screen.query(), "rust");
}

#[test]
fn columns_fold_as_the_terminal_narrows() {
    assert_eq!(Shown::at(120), Shown { end: true, source: true, note: true });
    assert_eq!(Shown::at(80), Shown { end: true, source: true, note: false });
    assert_eq!(Shown::at(60), Shown { end: true, source: false, note: false });
    assert_eq!(Shown::at(40), Shown { end: false, source: false, note: false });
}

#[test]
fn a_session_in_no_category_is_found_under_the_words_for_an_unknown_focus() {
    let mut catalog = catalog();
    let sessions = [session(1, Id::new(7, 7), 1_000, ""), session(2, Id::new(2, 2), 2_000, "")];
    let mut screen = Records::new();
    type_query(&mut screen, &mut catalog, "  GONE ");
    let rows = screen.rows_given(&sessions, &[], &catalog, "Gone focus");
    assert_eq!(rows, vec![0]);
    let (_, request) =
        qfocus::records::update_given(&mut screen, &sessions, &[], &mut catalog, Msg::Activate(0), "Gone focus");
    assert_eq!(request, Some(Request::Correct(Id::new(1, 1))));
}

#[test]
fn two_sessions_that_start_together_go_by_identifier_then_by_place() {
    let catalog = catalog();
    let sessions = [
        session(1, Id::new(2, 2), 1_000, ""),
        session(5, Id::new(2, 2), 1_000, ""),
        session(5, Id::new(2, 2), 1_000, ""),
    ];
    let screen = Records::new();
    assert_eq!(screen.rows_given(&sessions, &[], &catalog, "?"), vec![1, 2, 0]);
}

#[test]
fn a_moment_is_written_as_its_local_clock_time() {
    assert_eq!(qfocus::records::clock_of(1_758_124_800, 180), "19:00");
    assert_eq!(qfocus::records::clock_of(1_758_124_800 + 59, -90), "14:30");
}
