use qfocus::id::Id;
use qfocus::tree::{Goal, Period, Tree, write_goal, write_text};

const SAMPLE: &str = r#"
[[category]]
id = "00000000000000000000000001"
name = "Yazılım"
order = 1.0

[[category.focus]]
id = "00000000000000000000000002"
name = "Rust"

[[category.focus]]
id = "00000000000000000000000003"
name = "Gözden geçirme"
archived = true
goal = { amount = 21600, period = "week" }
"#;

#[test]
fn reads_categories_and_their_focuses() {
    let (tree, diagnostics) = Tree::read("tree.toml", SAMPLE);
    assert!(diagnostics.is_empty(), "{diagnostics:?}");
    assert_eq!(tree.categories.len(), 1);
    assert_eq!(tree.categories[0].name, "Yazılım");
    assert_eq!(tree.categories[0].focuses.len(), 2);
}

#[test]
fn reads_a_goal_and_an_archive_flag() {
    let (tree, _) = Tree::read("tree.toml", SAMPLE);
    let review = &tree.categories[0].focuses[1];
    assert!(review.archived);
    assert_eq!(review.goal, Some(Goal { amount: 21_600, period: Period::Week }));
}

#[test]
fn a_broken_entry_is_skipped_and_the_rest_is_kept() {
    let text = format!("{SAMPLE}\n[[category]]\nid = \"nope\"\nname = \"Bozuk\"\n");
    let (tree, diagnostics) = Tree::read("tree.toml", &text);
    assert_eq!(tree.categories.len(), 1, "sağlam kategori kalmalı");
    assert_eq!(diagnostics.len(), 1);
}

#[test]
fn broken_toml_never_empties_the_file() {
    let (tree, diagnostics) = Tree::read("tree.toml", "[[category]\nbozuk");
    assert!(tree.categories.is_empty());
    assert!(!diagnostics.is_empty());
    assert!(diagnostics.iter().all(|found| found.location.is_some()), "{diagnostics:?}");
}

#[test]
fn a_focus_can_be_found_by_its_identifier() {
    let (tree, _) = Tree::read("tree.toml", SAMPLE);
    let wanted = Id::parse("00000000000000000000000002").expect("kimlik");
    assert_eq!(tree.focus(wanted).map(|focus| focus.name.as_str()), Some("Rust"));
}

#[test]
fn a_duplicate_identifier_is_reported() {
    let text = SAMPLE.replace("00000000000000000000000003", "00000000000000000000000002");
    let (_, diagnostics) = Tree::read("tree.toml", &text);
    assert_eq!(diagnostics.len(), 1);
    assert_eq!(diagnostics[0].message, "00000000000000000000000002 is used twice");
}

#[test]
fn the_order_is_kept_as_written_with_the_place_beside_it() {
    let (tree, _) = Tree::read("tree.toml", SAMPLE);
    assert_eq!(tree.categories[0].order.written.as_deref(), Some("1.0"));
    assert_eq!(tree.categories[0].focuses[1].order.written, None);
    assert_eq!(tree.categories[0].focuses[1].order.place, 1);
}

#[test]
fn a_period_word_reads_back() {
    for period in [Period::Day, Period::Week, Period::Month] {
        assert_eq!(Period::parse(period.as_str()), Some(period));
    }
    assert_eq!(Period::parse("year"), None);
}

#[test]
fn text_is_written_with_what_would_end_it_hidden() {
    let mut out = String::new();
    write_text(&mut out, "name", "a \"b\" \\ c\td\u{1}");
    assert_eq!(out, "name = \"a \\\"b\\\" \\\\ c\\td\\u0001\"\n");
}

#[test]
fn a_goal_is_one_line() {
    let mut out = String::new();
    write_goal(&mut out, Goal { amount: 3_600, period: Period::Day });
    assert_eq!(out, "goal = { amount = 3600, period = \"day\" }\n");
}

#[test]
fn writes_what_it_read() {
    let (tree, _) = Tree::read("tree.toml", SAMPLE);
    let (again, diagnostics) = Tree::read("tree.toml", &tree.write());
    assert!(diagnostics.is_empty(), "{diagnostics:?}");
    assert_eq!(again.categories, tree.categories);
}

#[test]
fn the_file_is_laid_out_category_by_category() {
    let (tree, _) = Tree::read("tree.toml", SAMPLE);
    let expected = "[[category]]\n\
id = \"00000000000000000000000001\"\n\
name = \"Yazılım\"\n\
order = 1.0\n\
\n\
[[category.focus]]\n\
id = \"00000000000000000000000002\"\n\
name = \"Rust\"\n\
\n\
[[category.focus]]\n\
id = \"00000000000000000000000003\"\n\
name = \"Gözden geçirme\"\n\
archived = true\n\
goal = { amount = 21600, period = \"week\" }\n\
\n";
    assert_eq!(tree.write(), expected);
}
