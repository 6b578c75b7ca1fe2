use qfocus::export::{FocusName, HEADER, Names, csv, csv_field, json, json_string};
use qfocus::id::Id;
use qfocus::session::{Flag, Session, Source};
use qfocus::span::{ClockSource, Span, SpanKind};
use qfocus::tree::{Category, Focus, Order, Tree};

fn tree() -> Tree {
    Tree {
        categories: vec![Category {
            id: Id::new(1, 1),
            name: "Work".to_owned(),
            icon: None,
            goal: None,
            archived: false,
            order: Order { written: None, place: 0 },
            focuses: vec![Focus {
                id: Id::new(2, 2),
                name: "Rust".to_owned(),
                goal: None,
                archived: false,
                order: Order { written: None, place: 0 },
            }],
        }],
    }
}

fn session(note: &str) -> Session {
    // 2026-09-18 09:00 in Istanbul.
    let started = 1_789_711_200;
    Session {
        id: Id::new(3, 3),
        revision: 1,
        written: started + 2_400,
        focus: Id::new(2, 2),
        started,
        offset_minutes: 180,
        ended: started + 2_400,
        spans: vec![
            Span::new(SpanKind::Work, 0, 1_500, ClockSource::Mono),
            Span::new(SpanKind::Pause, 1_500, 300, ClockSource::Mono),
            Span::new(SpanKind::Work, 1_800, 600, ClockSource::Mono),
        ],
        source: Source::Timer,
        replaces: None,
        voids: None,
        continues: None,
        flags: vec![Flag::SuspectClock],
        note: note.to_owned(),
    }
}

#[test]
fn csv_has_a_header_and_one_line_per_session_with_local_times() {
    let text = csv(&[session("plain"), session("")], &Names::of(&tree()));
    let lines: Vec<&str> = text.split("\r\n").collect();
    assert_eq!(lines.len(), 4, "{text:?}");
    assert_eq!(lines[0], HEADER);
    assert_eq!(
        lines[1],
        format!(
            "{},Work,Rust,2026-09-18 09:00:00,2026-09-18 09:40:00,180,2100,2400,timer,suspect-clock,plain,\
             work:0:1500:mono pause:1500:300:mono work:1800:600:mono",
            Id::new(3, 3).to_string()
        )
    );
    assert_eq!(lines[3], "");
}

#[test]
fn csv_quotes_a_note_with_a_comma_a_quote_and_a_line_break() {
    let text = csv(&[session("read \"Rust\", twice\nthen wrote")], &Names::of(&tree()));
    assert!(text.contains(",\"read \"\"Rust\"\", twice\nthen wrote\","), "{text}");
    // The line break inside the quotes is the only one besides the record ends.
    assert_eq!(text.matches("\r\n").count(), 2);
}

#[test]
fn an_unknown_focus_leaves_the_names_empty() {
    let mut orphan = session("");
    orphan.focus = Id::new(9, 9);
    let text = csv(&[orphan], &Names::of(&tree()));
    assert!(text.contains(&format!("{},,,2026-09-18", Id::new(3, 3).to_string())), "{text}");
}

#[test]
fn json_is_an_array_of_objects_with_spans_and_escaped_notes() {
    let text = json(&[session("tab\there \"q\" \\ done")], &Names::of(&tree()));
    assert!(text.starts_with("[\n  {\n"), "{text}");
    assert!(text.ends_with("\n  }\n]\n"), "{text}");
    assert!(text.contains("\"note\": \"tab\\there \\\"q\\\" \\\\ done\""), "{text}");
    assert!(text.contains("\"flags\": [\"suspect-clock\"]"), "{text}");
    assert!(text.contains("{\"kind\": \"pause\", \"offset\": 1500, \"seconds\": 300, \"clock\": \"mono\"}"), "{text}");
    assert!(text.contains("\"work_seconds\": 2100"), "{text}");
    assert!(text.contains("\"started\": \"2026-09-18 09:00:00\""), "{text}");
    assert!(text.contains("\"started_unix\": 1789711200"), "{text}");
}

#[test]
fn empty_lists_are_still_well_formed() {
    assert_eq!(csv(&[], &Names::of(&tree())), format!("{}\r\n", HEADER));
    assert_eq!(json(&[], &Names::of(&tree())), "[]\n");
}

#[test]
fn a_csv_field_is_quoted_only_when_it_must_be() {
    assert_eq!(csv_field("plain"), "plain");
    assert_eq!(csv_field("a,b"), "\"a,b\"");
    assert_eq!(csv_field("say \"hi\""), "\"say \"\"hi\"\"\"");
    assert_eq!(csv_field("two\r\nlines"), "\"two\r\nlines\"");
}

#[test]
fn a_json_string_escapes_control_characters_in_lower_case_hex() {
    assert_eq!(json_string("a\u{1}b\u{1f}"), "\"a\\u0001b\\u001f\"");
    assert_eq!(json_string("ğ"), "\"ğ\"");
}

#[test]
fn two_sessions_are_two_objects_separated_by_a_comma() {
    let text = json(&[session("one"), session("two")], &Names::of(&tree()));
    assert_eq!(text.matches("\n  }").count(), 2);
    assert!(text.contains("\n  },\n  {\n"), "{text}");
}

#[test]
fn the_names_come_category_by_category() {
    let mut catalog = tree();
    let mut second = catalog.categories[0].clone();
    second.id = Id::new(4, 4);
    second.name = "Home".to_owned();
    second.focuses[0].id = Id::new(5, 5);
    second.focuses[0].name = "Garden".to_owned();
    catalog.categories.push(second);
    let names = Names::of(&catalog);
    let found: Vec<(Id, &str, &str)> =
        names.entries.iter().map(|entry: &FocusName| (entry.focus, entry.category.as_str(), entry.name.as_str())).collect();
    assert_eq!(found, vec![(Id::new(2, 2), "Work", "Rust"), (Id::new(5, 5), "Home", "Garden")]);
}
