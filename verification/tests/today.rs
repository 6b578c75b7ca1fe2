use qfocus::id::Id;
use qfocus::prefs::TimeOfDay;
use qfocus::today::{Editing, Effect, MenuAction, MenuEntry, MenuNames, Msg, Request, Row, Today, neighbour_places, update};
use qfocus::tree::{Category, Focus, Goal, Order, Period, Tree};

#[test]
fn keys_round_trip() {
    let id = Id::new(5, 7);
    for row in [Row::Category(id), Row::Focus(id), Row::AddFocus(id), Row::AddCategory] {
        assert_eq!(Row::parse(&row.key()), Some(row));
    }
    assert_eq!(Row::parse("x:nothing"), None);
}

#[test]
fn a_key_is_its_prefix_a_colon_and_the_identifier() {
    let id = Id::new(5, 7);
    let text = id.to_string();
    assert_eq!(Row::Category(id).key(), format!("c:{text}"));
    assert_eq!(Row::Focus(id).key(), format!("f:{text}"));
    assert_eq!(Row::AddFocus(id).key(), format!("+f:{text}"));
    assert_eq!(Row::AddCategory.key(), "+c");
}

#[test]
fn an_unknown_prefix_or_a_broken_identifier_is_no_row() {
    let text = Id::new(5, 7).to_string();
    assert_eq!(Row::parse(&format!("x:{text}")), None);
    assert_eq!(Row::parse(&format!("+c:{text}")), None);
    assert_eq!(Row::parse("c:TOOSHORT"), None);
    assert_eq!(Row::parse("+c "), None);
    assert_eq!(Row::parse(""), None);
    assert_eq!(Row::parse(&format!("c{text}")), None);
}

fn catalog_with(names: &[(&str, &[&str])]) -> Tree {
    let mut catalog = Tree { categories: Vec::new() };
    for (index, (name, focuses)) in names.iter().enumerate() {
        let focuses = focuses
            .iter()
            .enumerate()
            .map(|(place, focus)| Focus {
                id: Id::new(1_000 + u64::try_from(place).unwrap_or(0), u128::try_from(index).unwrap_or(0)),
                name: (*focus).to_owned(),
                goal: None,
                archived: false,
                order: Order { written: None, place },
            })
            .collect();
        catalog.categories.push(Category {
            id: Id::new(100 + u64::try_from(index).unwrap_or(0), 0),
            name: (*name).to_owned(),
            icon: None,
            goal: None,
            archived: false,
            order: Order { written: None, place: index },
            focuses,
        });
    }
    catalog
}

/// The identifier a new category or focus takes.
fn fresh() -> Id {
    Id::new(9_000, 9)
}

fn apply(screen: &mut Today, catalog: &mut Tree, msg: Msg) -> (Vec<Effect>, Option<Request>) {
    update(screen, catalog, msg, fresh())
}

#[test]
fn an_empty_name_is_refused_and_the_field_stays_open() {
    let mut screen = Today::new();
    let mut catalog = catalog_with(&[]);
    apply(&mut screen, &mut catalog, Msg::Activate(Row::AddCategory.key()));
    apply(&mut screen, &mut catalog, Msg::Typed("   ".to_owned()));
    let (_, request) = apply(&mut screen, &mut catalog, Msg::Submit);
    assert_eq!(request, None);
    assert!(screen.edit().is_some_and(|edit| edit.refused));
    assert!(catalog.categories.is_empty());
}

#[test]
fn a_new_focus_is_selected_and_the_catalogue_changes() {
    let mut screen = Today::new();
    let mut catalog = catalog_with(&[("Work", &[])]);
    let category = catalog.categories[0].id;
    apply(&mut screen, &mut catalog, Msg::Activate(Row::AddFocus(category).key()));
    apply(&mut screen, &mut catalog, Msg::Typed("Rust".to_owned()));
    let (_, request) = apply(&mut screen, &mut catalog, Msg::Submit);
    assert_eq!(request, Some(Request::Changed));
    let focus = catalog.categories[0].focuses[0].id;
    assert_eq!(screen.selected(), Some(Row::Focus(focus)));
    assert_eq!(catalog.categories[0].focuses[0].name, "Rust");
}

#[test]
fn a_focus_starts_and_an_archived_one_comes_back() {
    let mut screen = Today::new();
    let mut catalog = catalog_with(&[("Work", &["Rust"])]);
    let focus = catalog.categories[0].focuses[0].id;
    let (_, request) = apply(&mut screen, &mut catalog, Msg::Activate(Row::Focus(focus).key()));
    assert_eq!(request, Some(Request::Start(focus)));
    let (_, request) = apply(&mut screen, &mut catalog, Msg::Archive);
    assert_eq!(request, Some(Request::Changed));
    assert!(catalog.categories[0].focuses[0].archived);
    assert_eq!(screen.selected(), Some(Row::Category(catalog.categories[0].id)));
    apply(&mut screen, &mut catalog, Msg::Restore(Row::Focus(focus)));
    assert!(!catalog.categories[0].focuses[0].archived);
    assert_eq!(screen.selected(), Some(Row::Focus(focus)));
}

#[test]
fn a_block_is_selected_and_the_same_time_twice_is_the_whole_day() {
    let mut screen = Today::new();
    let mut catalog = catalog_with(&[]);
    apply(&mut screen, &mut catalog, Msg::Block(2));
    assert_eq!(screen.block(), Some(2));
    let (from, to) = (TimeOfDay::new(9, 0, 0), TimeOfDay::new(12, 0, 0));
    apply(&mut screen, &mut catalog, Msg::Zoom(from, to));
    assert_eq!(screen.zoom(), Some((from, to)));
    apply(&mut screen, &mut catalog, Msg::Zoom(from, from));
    assert_eq!(screen.zoom(), None);
}

#[test]
fn a_focus_moves_to_another_category_and_keeps_its_identifier() {
    let mut screen = Today::new();
    let mut catalog = catalog_with(&[("Work", &["Rust"]), ("Life", &["Reading"])]);
    let rust = catalog.categories[0].focuses[0].id;
    let life = catalog.categories[1].id;
    let key = Row::Focus(rust).key();
    let (effects, request) = apply(&mut screen, &mut catalog, Msg::Menu(key, MenuAction::MoveTo(life)));
    assert_eq!(request, Some(Request::Changed));
    assert!(catalog.categories[0].focuses.is_empty());
    assert_eq!(catalog.categories[1].focuses.len(), 2);
    assert_eq!(catalog.categories[1].focuses[1].id, rust);
    // The moved focus comes after the one already there, and the application is asked to give
    // it a number after every sibling.
    assert!(catalog.categories[1].focuses[1].order.place > catalog.categories[1].focuses[0].order.place);
    assert!(effects.contains(&Effect::PlaceLast(Row::Focus(rust))));
    assert_eq!(screen.selected(), Some(Row::Focus(rust)));
    // Moving to where it already is changes nothing.
    let key = Row::Focus(rust).key();
    let (_, request) = apply(&mut screen, &mut catalog, Msg::Menu(key, MenuAction::MoveTo(life)));
    assert_eq!(request, None);
}

#[test]
fn the_menu_acts_on_the_row_it_was_opened_on() {
    let mut screen = Today::new();
    let mut catalog = catalog_with(&[("Work", &["Rust", "Review"])]);
    let work = catalog.categories[0].id;
    let review = catalog.categories[0].focuses[1].id;
    apply(&mut screen, &mut catalog, Msg::Select(Row::Category(work).key()));
    let (_, request) = apply(&mut screen, &mut catalog, Msg::Menu(Row::Focus(review).key(), MenuAction::Archive));
    assert_eq!(request, Some(Request::Changed));
    assert!(catalog.categories[0].focuses[1].archived);
    assert!(!catalog.categories[0].focuses[0].archived);
    let (_, request) = apply(&mut screen, &mut catalog, Msg::Menu(Row::Focus(review).key(), MenuAction::AddFocus));
    assert_eq!(request, None);
    assert_eq!(screen.edit().map(|edit| edit.what), Some(Editing::NewFocus(work)));
    let names = MenuNames::of(&catalog, true, 3_600);
    let (items, _) = names.items(&Row::Focus(review).key());
    assert_eq!(items.len(), 8, "start, timed, rename, goal, gap, move to, gap, archive");
    let (items, _) = names.items(&Row::AddCategory.key());
    assert_eq!(items.len(), 1);
}

#[test]
fn renaming_keeps_the_row_selected() {
    let mut screen = Today::new();
    let mut catalog = catalog_with(&[("Work", &["Rust"])]);
    let category = catalog.categories[0].id;
    apply(&mut screen, &mut catalog, Msg::Select(Row::Category(category).key()));
    apply(&mut screen, &mut catalog, Msg::Rename);
    assert_eq!(screen.edit().map(|edit| edit.text.as_str()), Some("Work"));
    apply(&mut screen, &mut catalog, Msg::Typed("Craft".to_owned()));
    let (_, request) = apply(&mut screen, &mut catalog, Msg::Submit);
    assert_eq!(request, Some(Request::Changed));
    assert_eq!(catalog.categories[0].name, "Craft");
    assert_eq!(screen.selected(), Some(Row::Category(category)));
}

#[test]
fn a_name_a_shown_sibling_has_is_allowed_and_said() {
    let mut screen = Today::new();
    let mut catalog = catalog_with(&[("Work", &["Rust"])]);
    apply(&mut screen, &mut catalog, Msg::Activate(Row::AddCategory.key()));
    apply(&mut screen, &mut catalog, Msg::Typed(" Work ".to_owned()));
    let (effects, request) = apply(&mut screen, &mut catalog, Msg::Submit);
    assert_eq!(request, Some(Request::Changed));
    assert_eq!(catalog.categories.len(), 2);
    assert_eq!(catalog.categories[1].name, "Work");
    assert_eq!(catalog.categories[1].id, fresh());
    assert_eq!(
        effects,
        vec![
            Effect::FocusTree,
            Effect::NameTaken(Row::Category(fresh())),
            Effect::PlaceLast(Row::Category(fresh())),
        ]
    );
}

#[test]
fn a_goal_needs_a_length_and_is_set_on_the_row() {
    let mut screen = Today::new();
    let mut catalog = catalog_with(&[("Work", &["Rust"])]);
    let rust = catalog.categories[0].focuses[0].id;
    apply(&mut screen, &mut catalog, Msg::Select(Row::Focus(rust).key()));
    apply(&mut screen, &mut catalog, Msg::Goal(1_800));
    let edit = screen.goal_edit().expect("the goal field is open");
    assert_eq!((edit.amount, edit.period, edit.had_goal), (1_800, Period::Week, false));
    apply(&mut screen, &mut catalog, Msg::GoalAmount(0));
    let (_, request) = apply(&mut screen, &mut catalog, Msg::GoalSave);
    assert_eq!(request, None);
    assert!(screen.goal_edit().is_some_and(|edit| edit.refused));
    apply(&mut screen, &mut catalog, Msg::GoalAmount(3_600));
    apply(&mut screen, &mut catalog, Msg::GoalPeriod(1));
    let (effects, request) = apply(&mut screen, &mut catalog, Msg::GoalSave);
    assert_eq!(request, Some(Request::Changed));
    assert_eq!(effects, vec![Effect::FocusTree, Effect::GoalSet(Row::Focus(rust))]);
    assert_eq!(catalog.categories[0].focuses[0].goal, Some(Goal { amount: 3_600, period: Period::Week }));
    apply(&mut screen, &mut catalog, Msg::Goal(1_800));
    assert!(screen.goal_edit().is_some_and(|edit| edit.had_goal && edit.amount == 3_600));
    let (_, request) = apply(&mut screen, &mut catalog, Msg::GoalRemove);
    assert_eq!(request, Some(Request::Changed));
    assert_eq!(catalog.categories[0].focuses[0].goal, None);
}

#[test]
fn a_countdown_needs_a_length_and_starts_the_focus() {
    let mut screen = Today::new();
    let mut catalog = catalog_with(&[("Work", &["Rust"])]);
    let rust = catalog.categories[0].focuses[0].id;
    apply(&mut screen, &mut catalog, Msg::Select(Row::Focus(rust).key()));
    let (effects, _) = apply(&mut screen, &mut catalog, Msg::Timed(1_500));
    assert_eq!(effects, vec![Effect::FocusTimed]);
    assert!(screen.is_editing());
    apply(&mut screen, &mut catalog, Msg::TimedAmount(0));
    let (_, request) = apply(&mut screen, &mut catalog, Msg::TimedStart);
    assert_eq!(request, None);
    apply(&mut screen, &mut catalog, Msg::TimedAmount(5_000_000_000));
    let (_, request) = apply(&mut screen, &mut catalog, Msg::TimedStart);
    assert_eq!(request, Some(Request::StartFor(rust, u32::MAX)));
    assert!(!screen.is_editing());
}

#[test]
fn a_closed_category_opens_again_and_cancelling_says_so() {
    let mut screen = Today::new();
    let mut catalog = catalog_with(&[("Work", &["Rust"])]);
    let work = catalog.categories[0].id;
    apply(&mut screen, &mut catalog, Msg::Expand(Row::Category(work).key(), false));
    assert!(!screen.is_open(work));
    apply(&mut screen, &mut catalog, Msg::Expand(Row::Category(work).key(), true));
    assert!(screen.is_open(work));
    apply(&mut screen, &mut catalog, Msg::Activate(Row::AddCategory.key()));
    let (effects, _) = apply(&mut screen, &mut catalog, Msg::Cancel);
    assert_eq!(effects, vec![Effect::Cancelled, Effect::FocusTree]);
    let (effects, _) = apply(&mut screen, &mut catalog, Msg::Cancel);
    assert!(effects.is_empty());
    let menu = MenuNames::of(&catalog, false, 600);
    let (items, others) = menu.items(&Row::Focus(catalog.categories[0].focuses[0].id).key());
    assert_eq!(items[0], MenuEntry::Start { enabled: false });
    assert_eq!(items[5], MenuEntry::Move { enabled: false });
    assert!(others.is_empty());
}

#[test]
fn a_moved_row_finds_its_nearest_ordered_neighbours() {
    let (a, b, c) = (Id::new(1, 1), Id::new(2, 2), Id::new(3, 3));
    let rows = [Row::Category(a), Row::AddCategory, Row::Category(b), Row::Category(c)];
    assert_eq!(neighbour_places(&rows, &[true, false, false, true], Row::Category(b)), (Some(0), Some(3)));
    assert_eq!(neighbour_places(&rows, &[true, false, true, true], Row::Category(a)), (None, Some(2)));
    assert_eq!(neighbour_places(&rows, &[true, false, true, true], Row::Focus(a)), (None, None));
}
