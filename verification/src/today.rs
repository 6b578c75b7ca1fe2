//! The Today screen: the catalogue as a tree, with the day's work beside it, and the fields
//! that add, rename, give goals to and start what is in it.
//!
//! A row of the tree is known by a key: a short prefix, a colon and the identifier of the
//! category or focus the row stands for: `c:` for a category, `f:` for a focus, `+f:` for the
//! row that adds a focus under a category. The last row, which adds a category, is `+c` alone.
//!
//! Where a row sits among its siblings is a number the catalogue file holds; working one out
//! for a new or moved row is left to the application, which is asked to by
//! [`Effect::PlaceLast`]. Until then the row keeps the place it was put in.

use vstd::prelude::*;

use crate::id::{Id, parsed};
use crate::prefs::TimeOfDay;
use crate::records::{category_at, focus_at, focus_index};
use crate::session::line::id_text;
use crate::store::paths::{trim, trimmed};
use crate::text::{chars_are, chars_of, string_of};
use crate::tree::{Category, CategoryView, Focus, FocusView, Goal, Order, OrderView, Period, Tree, category_views, focus_views};

verus! {

/// A row of the tree.
#[derive(Debug, Clone, Copy, PartialEq, Eq, Structural)]
pub enum Row {
    /// A category.
    Category(Id),
    /// A focus.
    Focus(Id),
    /// The row that adds a focus under a category.
    AddFocus(Id),
    /// The last row, which adds a category.
    AddCategory,
}

/// The prefix of a row's key, before the colon; the whole key of the row that adds a category.
pub open spec fn row_prefix(row: Row) -> Seq<char> {
    match row {
        Row::Category(_) => seq!['c'],
        Row::Focus(_) => seq!['f'],
        Row::AddFocus(_) => seq!['+', 'f'],
        Row::AddCategory => seq!['+', 'c'],
    }
}

/// The tree key of `row`.
pub open spec fn row_key(row: Row) -> Seq<char> {
    match row {
        Row::Category(id) => row_prefix(row) + seq![':'] + id_text(id),
        Row::Focus(id) => row_prefix(row) + seq![':'] + id_text(id),
        Row::AddFocus(id) => row_prefix(row) + seq![':'] + id_text(id),
        Row::AddCategory => row_prefix(row),
    }
}

/// Where the first colon of `key` at or after `i` stands, if there is one.
pub open spec fn colon_from(key: Seq<char>, i: int) -> Option<int>
    decreases key.len() - i,
{
    if i < 0 || i >= key.len() {
        None
    } else if key[i] == ':' {
        Some(i)
    } else {
        colon_from(key, i + 1)
    }
}

/// The row `key` stands for: `+c`, or a known prefix, a colon and an identifier; `None` for a
/// key the tree never made.
pub open spec fn row_of_key(key: Seq<char>) -> Option<Row> {
    if key == seq!['+', 'c'] {
        Some(Row::AddCategory)
    } else {
        match colon_from(key, 0) {
            None => None,
            Some(at) => {
                let prefix = key.take(at);
                match parsed(key.skip(at + 1)) {
                    None => None,
                    Some(value) => if prefix == seq!['c'] {
                        Some(Row::Category(Id::of(value)))
                    } else if prefix == seq!['f'] {
                        Some(Row::Focus(Id::of(value)))
                    } else if prefix == seq!['+', 'f'] {
                        Some(Row::AddFocus(Id::of(value)))
                    } else {
                        None
                    },
                }
            },
        }
    }
}

impl Row {
    /// The tree key of the row.
    pub fn key(&self) -> (key: String)
        ensures
            key@ == row_key(*self),
    {
        let mut out: Vec<char> = Vec::new();
        match self {
            Row::Category(id) => {
                out.push('c');
                out.push(':');
                id.write_to(&mut out);
            },
            Row::Focus(id) => {
                out.push('f');
                out.push(':');
                id.write_to(&mut out);
            },
            Row::AddFocus(id) => {
                out.push('+');
                out.push('f');
                out.push(':');
                id.write_to(&mut out);
            },
            Row::AddCategory => {
                out.push('+');
                out.push('c');
            },
        }
        proof {
            assert(out@ =~= row_key(*self));
        }
        string_of(&out)
    }

    /// The row of a tree key, or `None` for a key the tree never made.
    pub fn parse(key: &str) -> (row: Option<Row>)
        ensures
            row == row_of_key(key@),
    {
        let chars = chars_of(key);
        if chars.len() == 2 && chars[0] == '+' && chars[1] == 'c' {
            assert(chars@ =~= seq!['+', 'c']);
            return Some(Row::AddCategory);
        }
        assert(chars@ != seq!['+', 'c']);
        let mut at: usize = 0;
        while at < chars.len() && chars[at] != ':'
            invariant
                at <= chars@.len(),
                colon_from(chars@, 0) == colon_from(chars@, at as int),
            decreases chars@.len() - at,
        {
            at = at + 1;
        }
        if at == chars.len() {
            return None;
        }
        let mut rest: Vec<char> = Vec::new();
        let mut i: usize = at + 1;
        while i < chars.len()
            invariant
                at < i <= chars@.len(),
                rest@ == chars@.subrange(at + 1, i as int),
            decreases chars@.len() - i,
        {
            rest.push(chars[i]);
            i = i + 1;
        }
        assert(rest@ =~= chars@.skip(at + 1));
        let id = match Id::parse_chars(rest.as_slice()) {
            Some(id) => id,
            None => return None,
        };
        let ghost prefix = chars@.take(at as int);
        if at == 1 && chars[0] == 'c' {
            assert(prefix =~= seq!['c']);
            Some(Row::Category(id))
        } else if at == 1 && chars[0] == 'f' {
            assert(prefix =~= seq!['f']);
            Some(Row::Focus(id))
        } else if at == 2 && chars[0] == '+' && chars[1] == 'f' {
            assert(prefix =~= seq!['+', 'f']);
            Some(Row::AddFocus(id))
        } else {
            assert(prefix != seq!['c'] && prefix != seq!['f'] && prefix != seq!['+', 'f']) by {
                if prefix == seq!['c'] || prefix == seq!['f'] {
                    assert(prefix.len() == 1 && prefix[0] == chars@[0]);
                }
                if prefix == seq!['+', 'f'] {
                    assert(prefix.len() == 2 && prefix[0] == chars@[0] && prefix[1] == chars@[1]);
                }
            }
            None
        }
    }
}

/// A row's key reads back as the row: whenever its identifier reads back from its text, which
/// every identifier made from a stamp before the year 6429 does.
pub proof fn law_a_row_key_reads_back_as_the_row(row: Row)
    requires
        match row {
            Row::Category(id) => id.value() < 0x8000_0000_0000_0000_0000_0000_0000_0000,
            Row::Focus(id) => id.value() < 0x8000_0000_0000_0000_0000_0000_0000_0000,
            Row::AddFocus(id) => id.value() < 0x8000_0000_0000_0000_0000_0000_0000_0000,
            Row::AddCategory => true,
        },
    ensures
        row_of_key(row_key(row)) == Some(row),
{
    let key = row_key(row);
    match row {
        Row::AddCategory => {},
        Row::Category(id) | Row::Focus(id) | Row::AddFocus(id) => {
            let n: int = row_prefix(row).len() as int;
            crate::id::law_an_identifier_reads_back_from_its_text(id);
            assert(key != seq!['+', 'c']);
            assert(key[n] == ':');
            assert(forall|j: int| 0 <= j < n ==> key[j] != ':');
            assert(colon_from(key, 0) == Some(n)) by {
                if n == 2 {
                    assert(key[0] != ':');
                    assert(colon_from(key, 0) == colon_from(key, 1));
                    assert(key[1] != ':');
                    assert(colon_from(key, 1) == colon_from(key, 2));
                } else {
                    assert(key[0] != ':');
                    assert(colon_from(key, 0) == colon_from(key, 1));
                }
            }
            assert(key.skip(n + 1) =~= id_text(id));
            assert(key.take(n) =~= row_prefix(row));
            id.lemma_value(id.value());
        },
    }
}

/// What the name field is for.
#[derive(Debug, Clone, Copy, PartialEq, Eq, Structural)]
pub enum Editing {
    /// A category to add at the end.
    NewCategory,
    /// A focus to add under this category.
    NewFocus(Id),
    /// A new name for this category or focus.
    Rename(Row),
}

/// The name field while it is open.
#[derive(Debug, Clone, PartialEq, Eq)]
pub struct Edit {
    /// What the name is for.
    pub what: Editing,
    /// What has been typed.
    pub text: String,
    /// Whether an empty name was just refused; the reason stands beside the field until the
    /// person types.
    pub refused: bool,
}

/// The name field as values.
pub struct EditView {
    pub what: Editing,
    pub text: Seq<char>,
    pub refused: bool,
}

impl View for Edit {
    type V = EditView;

    open spec fn view(&self) -> EditView {
        EditView { what: self.what, text: self.text@, refused: self.refused }
    }
}

/// The goal field while it is open.
#[derive(Debug, Clone, Copy, PartialEq, Eq, Structural)]
pub struct GoalEdit {
    /// The category or focus the goal is for.
    pub row: Row,
    /// Seconds typed so far.
    pub amount: u64,
    /// How often the goal starts over.
    pub period: Period,
    /// Whether the row had a goal when the field opened, so it can be removed.
    pub had_goal: bool,
    /// Whether a zero length was just refused.
    pub refused: bool,
}

/// The countdown field while it is open.
#[derive(Debug, Clone, Copy, PartialEq, Eq, Structural)]
pub struct TimedStart {
    /// The focus to start.
    pub focus: Id,
    /// Seconds typed so far.
    pub amount: u64,
    /// Whether a zero length was just refused.
    pub refused: bool,
}

/// What the context menu of a row offers.
#[derive(Debug, Clone, Copy, PartialEq, Eq, Structural)]
pub enum MenuAction {
    /// Start counting the focus.
    Start,
    /// Rename the category or focus.
    Rename,
    /// Archive the category or focus.
    Archive,
    /// Add a focus under the category.
    AddFocus,
    /// Add a category at the end.
    AddCategory,
    /// Move the focus under this category.
    MoveTo(Id),
    /// Set, change or remove the goal; a row without one starts from these seconds.
    Goal(u32),
    /// Start the focus with a countdown, suggested from these seconds.
    Timed(u32),
}

/// Something that happened on the screen. Dragging a row among its siblings is the
/// application's to apply: it works out the row's new place from the numbers the catalogue
/// holds.
#[derive(Debug, Clone, PartialEq, Eq)]
pub enum Msg {
    /// A row was selected, by key.
    Select(String),
    /// A row was activated with Enter, Space or a click.
    Activate(String),
    /// A category was opened or closed.
    Expand(String, bool),
    /// The name field changed.
    Typed(String),
    /// The name field was submitted.
    Submit,
    /// The name field was closed without a name.
    Cancel,
    /// The selected category or focus was archived.
    Archive,
    /// The selected category or focus is to be renamed.
    Rename,
    /// An archived row is brought back, from the toast that said it went.
    Restore(Row),
    /// A block of the day strip was selected.
    Block(usize),
    /// The strip was zoomed to this stretch of the day; the same time twice is the whole day.
    Zoom(TimeOfDay, TimeOfDay),
    /// An entry of a row's context menu was chosen, for the row with this key.
    Menu(String, MenuAction),
    /// The goal field opens on the selected row; a row without a goal starts from these seconds.
    Goal(u32),
    /// The goal field's length changed, in seconds.
    GoalAmount(u64),
    /// The goal field's period was chosen, by position among day, week and month.
    GoalPeriod(usize),
    /// The goal field was submitted.
    GoalSave,
    /// The goal of the row is removed.
    GoalRemove,
    /// The goal field was closed without a change.
    GoalCancel,
    /// The countdown field opens on the selected focus, starting from these seconds.
    Timed(u32),
    /// The countdown field's length changed, in seconds.
    TimedAmount(u64),
    /// The countdown field was submitted.
    TimedStart,
    /// The countdown field was closed without starting.
    TimedCancel,
}

/// What the screen asks the application for.
#[derive(Debug, Clone, Copy, PartialEq, Eq, Structural)]
pub enum Request {
    /// Start counting this focus.
    Start(Id),
    /// Start counting this focus with a countdown of this many seconds.
    StartFor(Id, u32),
    /// The catalogue changed and wants writing.
    Changed,
}

/// What the application shows or does for the screen, besides what it is asked for.
#[derive(Debug, Clone, Copy, PartialEq, Eq, Structural)]
pub enum Effect {
    /// The keyboard goes to the tree.
    FocusTree,
    /// The keyboard goes to the name field.
    FocusName,
    /// The keyboard goes to the goal field.
    FocusGoal,
    /// The keyboard goes to the countdown field.
    FocusTimed,
    /// A field was closed without a change.
    Cancelled,
    /// The row was given the goal in the goal field.
    GoalSet(Row),
    /// The goal of the row was taken off.
    GoalRemoved(Row),
    /// The row took a name a sibling that is shown already has; it is allowed and said.
    NameTaken(Row),
    /// The focus went under the category, at its end.
    Moved { focus: Id, category: Id },
    /// The row was archived; what says so offers to bring it back.
    Archived(Row),
    /// The archived row was brought back.
    Restored(Row),
    /// The row is new among its siblings, or new under its category: it wants a place after
    /// every sibling before the catalogue is written.
    PlaceLast(Row),
}

/// The state of the screen.
#[derive(Debug, Clone)]
pub struct Today {
    /// The selected row, by key.
    selected: Option<String>,
    /// Categories that are closed; every other one is open.
    collapsed: Vec<Id>,
    /// The name field, while open.
    edit: Option<Edit>,
    /// The selected block of the day strip, by index into the day's blocks.
    block: Option<usize>,
    /// The stretch of the day the strip is zoomed to; the whole day when `None`.
    zoom: Option<(TimeOfDay, TimeOfDay)>,
    /// The goal field, while open.
    goal: Option<GoalEdit>,
    /// The countdown field, while open.
    timed: Option<TimedStart>,
}

/// The screen as values.
pub struct TodayView {
    pub selected: Option<Seq<char>>,
    pub collapsed: Set<Id>,
    pub edit: Option<EditView>,
    pub block: Option<usize>,
    pub zoom: Option<(TimeOfDay, TimeOfDay)>,
    pub goal: Option<GoalEdit>,
    pub timed: Option<TimedStart>,
}

impl View for Today {
    type V = TodayView;

    closed spec fn view(&self) -> TodayView {
        TodayView {
            selected: match self.selected {
                Some(key) => Some(key@),
                None => None,
            },
            collapsed: self.collapsed@.to_set(),
            edit: match self.edit {
                Some(edit) => Some(edit@),
                None => None,
            },
            block: self.block,
            zoom: self.zoom,
            goal: self.goal,
            timed: self.timed,
        }
    }
}

/// The row the screen's selection stands for, if its key is one the tree makes.
pub open spec fn selected_row(v: TodayView) -> Option<Row> {
    match v.selected {
        Some(key) => row_of_key(key),
        None => None,
    }
}

impl Today {
    /// The screen with nothing selected and every category open.
    pub fn new() -> (screen: Self)
        ensures
            screen@ == (TodayView {
                selected: None,
                collapsed: Set::empty(),
                edit: None,
                block: None,
                zoom: None,
                goal: None,
                timed: None,
            }),
    {
        let screen = Today {
            selected: None,
            collapsed: Vec::new(),
            edit: None,
            block: None,
            zoom: None,
            goal: None,
            timed: None,
        };
        assert(screen.collapsed@.to_set() =~= Set::<Id>::empty());
        screen
    }

    /// The selected row.
    pub fn selected(&self) -> (row: Option<Row>)
        ensures
            row == selected_row(self@),
    {
        match &self.selected {
            Some(key) => Row::parse(key.as_str()),
            None => None,
        }
    }

    /// The name field, while open.
    pub fn edit(&self) -> (edit: Option<&Edit>)
        ensures
            match edit {
                Some(e) => self@.edit == Some(e@),
                None => self@.edit is None,
            },
    {
        self.edit.as_ref()
    }

    /// The selected block of the day strip, by index into the day's blocks.
    pub fn block(&self) -> (block: Option<usize>)
        ensures
            block == self@.block,
    {
        self.block
    }

    /// The goal field, while open.
    pub fn goal_edit(&self) -> (edit: Option<GoalEdit>)
        ensures
            edit == self@.goal,
    {
        self.goal
    }

    /// The countdown field, while open.
    pub fn timed(&self) -> (timed: Option<TimedStart>)
        ensures
            timed == self@.timed,
    {
        self.timed
    }

    /// Whether any field under the tree is open: a name, a goal or a countdown.
    pub fn is_editing(&self) -> (editing: bool)
        ensures
            editing == (self@.edit is Some || self@.goal is Some || self@.timed is Some),
    {
        self.edit.is_some() || self.goal.is_some() || self.timed.is_some()
    }

    /// The stretch of the day the strip is zoomed to; the whole day when `None`.
    pub fn zoom(&self) -> (zoom: Option<(TimeOfDay, TimeOfDay)>)
        ensures
            zoom == self@.zoom,
    {
        self.zoom
    }

    /// Whether the category `id` is open in the tree.
    pub fn is_open(&self, id: Id) -> (open: bool)
        ensures
            open == !self@.collapsed.contains(id),
    {
        let mut i: usize = 0;
        while i < self.collapsed.len()
            invariant
                i <= self.collapsed@.len(),
                forall|j: int| 0 <= j < i ==> self.collapsed@[j] != id,
            decreases self.collapsed@.len() - i,
        {
            if self.collapsed[i] == id {
                return false;
            }
            i = i + 1;
        }
        true
    }
}

proof fn lemma_push_contains(s: Seq<Id>, x: Id, y: Id)
    ensures
        s.push(x).contains(y) <==> (s.contains(y) || y == x),
{
    if s.contains(y) {
        let k = choose|k: int| 0 <= k < s.len() && s[k] == y;
        assert(s.push(x)[k] == y);
    }
    if y == x {
        assert(s.push(x)[s.len() as int] == x);
    }
    if s.push(x).contains(y) {
        let k = choose|k: int| 0 <= k < s.len() + 1 && s.push(x)[k] == y;
        if k < s.len() {
            assert(s[k] == y);
        }
    }
}

/// Takes `id` out of the closed categories.
fn open_category(collapsed: &mut Vec<Id>, id: Id)
    ensures
        final(collapsed)@.to_set() == old(collapsed)@.to_set().remove(id),
{
    broadcast use vstd::seq_lib::group_seq_properties;

    let mut kept: Vec<Id> = Vec::new();
    let mut i: usize = 0;
    while i < collapsed.len()
        invariant
            i <= collapsed@.len(),
            forall|x: Id| kept@.contains(x) <==> (x != id && collapsed@.take(i as int).contains(x)),
        decreases collapsed@.len() - i,
    {
        let x = collapsed[i];
        let ghost kept_before = kept@;
        if x != id {
            kept.push(x);
        }
        proof {
            assert(collapsed@.take(i as int + 1) =~= collapsed@.take(i as int).push(x));
            assert forall|y: Id| kept@.contains(y) <==> (y != id && collapsed@.take(i as int + 1).contains(y)) by {
                assert(kept_before.contains(y) <==> (y != id && collapsed@.take(i as int).contains(y)));
                lemma_push_contains(collapsed@.take(i as int), x, y);
                lemma_push_contains(kept_before, x, y);
                if x != id {
                    assert(kept@ == kept_before.push(x));
                } else {
                    assert(kept@ == kept_before);
                }
            }
        }
        i = i + 1;
    }
    assert(collapsed@.take(collapsed@.len() as int) =~= collapsed@);
    assert(kept@.to_set() =~= collapsed@.to_set().remove(id));
    *collapsed = kept;
}

/// Puts `id` among the closed categories.
fn close_category(collapsed: &mut Vec<Id>, id: Id)
    ensures
        final(collapsed)@.to_set() == old(collapsed)@.to_set().insert(id),
{
    broadcast use vstd::seq_lib::group_seq_properties;

    let mut i: usize = 0;
    while i < collapsed.len()
        invariant
            i <= collapsed@.len(),
            forall|j: int| 0 <= j < i ==> collapsed@[j] != id,
        decreases collapsed@.len() - i,
    {
        if collapsed[i] == id {
            assert(collapsed@.to_set() =~= collapsed@.to_set().insert(id));
            return;
        }
        i = i + 1;
    }
    collapsed.push(id);
    assert(collapsed@.to_set() =~= old(collapsed)@.to_set().insert(id));
}

/// What a change to a category or a focus sets.
pub enum Change {
    /// Its goal.
    Goal(Option<Goal>),
    /// Whether it is archived.
    Archived(bool),
    /// Its name.
    Name(String),
}

/// A change as values.
pub enum ChangeView {
    Goal(Option<Goal>),
    Archived(bool),
    Name(Seq<char>),
}

impl View for Change {
    type V = ChangeView;

    open spec fn view(&self) -> ChangeView {
        match self {
            Change::Goal(goal) => ChangeView::Goal(*goal),
            Change::Archived(archived) => ChangeView::Archived(*archived),
            Change::Name(name) => ChangeView::Name(name@),
        }
    }
}

/// `category` after `change`.
pub open spec fn category_changed(category: CategoryView, change: ChangeView) -> CategoryView {
    match change {
        ChangeView::Goal(goal) => CategoryView { goal, ..category },
        ChangeView::Archived(archived) => CategoryView { archived, ..category },
        ChangeView::Name(name) => CategoryView { name, ..category },
    }
}

/// `focus` after `change`.
pub open spec fn focus_changed(focus: FocusView, change: ChangeView) -> FocusView {
    match change {
        ChangeView::Goal(goal) => FocusView { goal, ..focus },
        ChangeView::Archived(archived) => FocusView { archived, ..focus },
        ChangeView::Name(name) => FocusView { name, ..focus },
    }
}

/// The catalogue, as values, after `change` to the category or focus `row`, the first one with
/// its identifier; `None` when the catalogue has none, or the row is an add row.
pub open spec fn row_changed(categories: Seq<Category>, row: Row, change: ChangeView) -> Option<Seq<CategoryView>> {
    let views = category_views(categories);
    match row {
        Row::Category(id) => match category_at(categories, id, 0) {
            Some(c) => Some(views.update(c, category_changed(views[c], change))),
            None => None,
        },
        Row::Focus(id) => match focus_at(categories, id, 0) {
            Some((c, f)) => Some(
                views.update(c, CategoryView { focuses: views[c].focuses.update(f, focus_changed(views[c].focuses[f], change)), ..views[c] }),
            ),
            None => None,
        },
        _ => None,
    }
}

pub(crate) proof fn lemma_category_at_found(categories: Seq<Category>, id: Id, c: int)
    requires
        0 <= c,
    ensures
        category_at(categories, id, c) matches Some(k) ==> c <= k < categories.len() && categories[k].id == id,
        category_at(categories, id, c) matches Some(k) ==> forall|j: int| c <= j < k ==> #[trigger] categories[j].id != id,
        category_at(categories, id, c) is None ==> forall|k: int| c <= k < categories.len() ==> categories[k].id != id,
    decreases categories.len() - c,
{
    if c < categories.len() && categories[c].id != id {
        lemma_category_at_found(categories, id, c + 1);
    }
}

proof fn lemma_focus_index_found(focuses: Seq<Focus>, id: Id, j: int)
    requires
        0 <= j,
    ensures
        focus_index(focuses, id, j) matches Some(f) ==> j <= f < focuses.len() && focuses[f].id == id,
        focus_index(focuses, id, j) is None ==> forall|f: int| j <= f < focuses.len() ==> focuses[f].id != id,
    decreases focuses.len() - j,
{
    if j < focuses.len() && focuses[j].id != id {
        lemma_focus_index_found(focuses, id, j + 1);
    }
}

pub(crate) proof fn lemma_focus_at_found(categories: Seq<Category>, id: Id, c: int)
    requires
        0 <= c,
    ensures
        focus_at(categories, id, c) matches Some((k, f)) ==> c <= k < categories.len() && 0 <= f
            < categories[k].focuses@.len() && categories[k].focuses@[f].id == id,
        focus_at(categories, id, c) matches Some((k, f)) ==> focus_index(categories[k].focuses@, id, 0) == Some(f),
    decreases categories.len() - c,
{
    if c < categories.len() {
        lemma_focus_index_found(categories[c].focuses@, id, 0);
        if focus_index(categories[c].focuses@, id, 0) is None {
            lemma_focus_at_found(categories, id, c + 1);
        }
    }
}

/// Where the first category with the identifier `id` stands.
fn find_category(categories: &Vec<Category>, id: Id) -> (at: Option<usize>)
    ensures
        match at {
            Some(c) => category_at(categories@, id, 0) == Some(c as int),
            None => category_at(categories@, id, 0) is None,
        },
        at matches Some(c) ==> c < categories@.len() && categories@[c as int].id == id,
{
    proof {
        lemma_category_at_found(categories@, id, 0);
    }
    let mut c: usize = 0;
    while c < categories.len()
        invariant
            c <= categories@.len(),
            category_at(categories@, id, 0) == category_at(categories@, id, c as int),
        decreases categories@.len() - c,
    {
        if categories[c].id == id {
            return Some(c);
        }
        c = c + 1;
    }
    None
}

/// Where the first focus with the identifier `id` stands among `focuses`.
fn find_in(focuses: &Vec<Focus>, id: Id) -> (at: Option<usize>)
    ensures
        match at {
            Some(f) => focus_index(focuses@, id, 0) == Some(f as int),
            None => focus_index(focuses@, id, 0) is None,
        },
{
    let mut f: usize = 0;
    while f < focuses.len()
        invariant
            f <= focuses@.len(),
            focus_index(focuses@, id, 0) == focus_index(focuses@, id, f as int),
        decreases focuses@.len() - f,
    {
        if focuses[f].id == id {
            return Some(f);
        }
        f = f + 1;
    }
    None
}

/// Where the first focus with the identifier `id` stands, category by category: the category
/// and the place in it.
fn find_focus(categories: &Vec<Category>, id: Id) -> (at: Option<(usize, usize)>)
    ensures
        match at {
            Some((c, f)) => focus_at(categories@, id, 0) == Some((c as int, f as int)),
            None => focus_at(categories@, id, 0) is None,
        },
        at matches Some((c, f)) ==> c < categories@.len() && f < categories@[c as int].focuses@.len()
            && categories@[c as int].focuses@[f as int].id == id,
{
    proof {
        lemma_focus_at_found(categories@, id, 0);
    }
    let mut c: usize = 0;
    while c < categories.len()
        invariant
            c <= categories@.len(),
            focus_at(categories@, id, 0) == focus_at(categories@, id, c as int),
        decreases categories@.len() - c,
    {
        match find_in(&categories[c].focuses, id) {
            Some(f) => {
                proof {
                    lemma_focus_at_found(categories@, id, 0);
                }
                return Some((c, f));
            },
            None => {},
        }
        c = c + 1;
    }
    None
}

/// Applies `change` to the category or focus `row`, the first one with its identifier; `false`
/// and no change when there is none.
fn change_row(categories: &mut Vec<Category>, row: Row, change: Change) -> (done: bool)
    ensures
        done == row_changed(old(categories)@, row, change@) is Some,
        done ==> category_views(final(categories)@) == row_changed(old(categories)@, row, change@).unwrap(),
        !done ==> final(categories)@ == old(categories)@,
{
    proof {
        match row {
            Row::Category(id) => lemma_category_at_found(categories@, id, 0),
            Row::Focus(id) => lemma_focus_at_found(categories@, id, 0),
            _ => {},
        }
    }
    let ghost before = categories@;
    match row {
        Row::Category(id) => match find_category(categories, id) {
            Some(c) => {
                let mut category = categories.remove(c);
                let ghost was = category@;
                let ghost wanted = change@;
                match change {
                    Change::Goal(goal) => category.goal = goal,
                    Change::Archived(archived) => category.archived = archived,
                    Change::Name(name) => category.name = name,
                }
                assert(category@ == category_changed(was, wanted));
                categories.insert(c, category);
                assert(categories@ =~= before.update(c as int, category));
                assert(category_views(categories@) =~= category_views(before).update(c as int, category@));
                true
            },
            None => false,
        },
        Row::Focus(id) => match find_focus(categories, id) {
            Some((c, f)) => {
                let mut category = categories.remove(c);
                let ghost focuses_before = category.focuses@;
                let mut focus = category.focuses.remove(f);
                let ghost was = focus@;
                let ghost wanted = change@;
                match change {
                    Change::Goal(goal) => focus.goal = goal,
                    Change::Archived(archived) => focus.archived = archived,
                    Change::Name(name) => focus.name = name,
                }
                assert(focus@ == focus_changed(was, wanted));
                category.focuses.insert(f, focus);
                assert(category.focuses@ =~= focuses_before.update(f as int, focus));
                assert(focus_views(category.focuses@) =~= focus_views(focuses_before).update(f as int, focus@));
                categories.insert(c, category);
                assert(categories@ =~= before.update(c as int, category));
                assert(category_views(categories@) =~= category_views(before).update(c as int, category@));
                true
            },
            None => false,
        },
        _ => false,
    }
}

/// What a message does: the screen and the catalogue after it, the effects it has and what it
/// asks of the application.
pub struct Step {
    pub screen: TodayView,
    pub catalog: Seq<CategoryView>,
    pub effects: Seq<Effect>,
    pub request: Option<Request>,
}

/// Nothing changes and nothing is asked.
pub open spec fn unchanged(v: TodayView, categories: Seq<Category>) -> Step {
    Step { screen: v, catalog: category_views(categories), effects: Seq::empty(), request: None }
}

/// Whether the screen `screen`, the catalogue `categories` and the answer `answer` are what
/// `step` says.
pub open spec fn took(step: Step, screen: TodayView, categories: Seq<Category>, answer: (Vec<Effect>, Option<Request>)) -> bool {
    &&& screen == step.screen
    &&& category_views(categories) == step.catalog
    &&& answer.0@ == step.effects
    &&& answer.1 == step.request
}

/// The name field opened for `what`, with `text` in it.
pub open spec fn opened(what: Editing, text: Seq<char>) -> Option<EditView> {
    Some(EditView { what, text, refused: false })
}

/// What activating the row with the key `key` does: it becomes the selection; a focus the
/// catalogue has starts, an add row opens the name field, anything else does nothing more.
pub open spec fn activated(v: TodayView, categories: Seq<Category>, key: Seq<char>) -> Step {
    let chosen = TodayView { selected: Some(key), ..v };
    let same = category_views(categories);
    match row_of_key(key) {
        Some(Row::Focus(id)) => if focus_at(categories, id, 0) is Some {
            Step { screen: chosen, catalog: same, effects: Seq::empty(), request: Some(Request::Start(id)) }
        } else {
            unchanged(chosen, categories)
        },
        Some(Row::AddFocus(id)) => Step {
            screen: TodayView { edit: opened(Editing::NewFocus(id), Seq::empty()), ..chosen },
            catalog: same,
            effects: seq![Effect::FocusName],
            request: None,
        },
        Some(Row::AddCategory) => Step {
            screen: TodayView { edit: opened(Editing::NewCategory, Seq::empty()), ..chosen },
            catalog: same,
            effects: seq![Effect::FocusName],
            request: None,
        },
        _ => unchanged(chosen, categories),
    }
}

/// Whether a shown sibling of what the name field is for already has the name `name`: another
/// category, or another focus of the same category.
pub open spec fn name_taken(what: Editing, categories: Seq<Category>, name: Seq<char>) -> bool {
    match what {
        Editing::NewCategory => exists|k: int|
            0 <= k < categories.len() && !categories[k].archived && #[trigger] categories[k].name@ == name,
        Editing::Rename(Row::Category(own)) => exists|k: int|
            0 <= k < categories.len() && !categories[k].archived && categories[k].id != own
                && #[trigger] categories[k].name@ == name,
        Editing::NewFocus(category) => match category_at(categories, category, 0) {
            Some(c) => exists|j: int|
                0 <= j < categories[c].focuses@.len() && !categories[c].focuses@[j].archived
                    && #[trigger] categories[c].focuses@[j].name@ == name,
            None => false,
        },
        Editing::Rename(Row::Focus(id)) => match focus_at(categories, id, 0) {
            Some((c, _)) => exists|j: int|
                0 <= j < categories[c].focuses@.len() && !categories[c].focuses@[j].archived
                    && categories[c].focuses@[j].id != id && #[trigger] categories[c].focuses@[j].name@ == name,
            None => false,
        },
        Editing::Rename(_) => false,
    }
}

/// A new category as values: no icon, no goal, no focuses, at the end of the catalogue.
pub open spec fn new_category(id: Id, name: Seq<char>, place: nat) -> CategoryView {
    CategoryView {
        id,
        name,
        icon: None,
        goal: None,
        archived: false,
        order: OrderView { written: None, place: place as usize },
        focuses: Seq::empty(),
    }
}

/// A new focus as values: no goal, at the end of its category.
pub open spec fn new_focus(id: Id, name: Seq<char>, place: nat) -> FocusView {
    FocusView { id, name, goal: None, archived: false, order: OrderView { written: None, place: place as usize } }
}

/// The catalogue, as values, after the name `name` is taken for `what`, and the row it lands
/// on; `None` when what it was for is not in the catalogue. A new category or focus has the
/// identifier `fresh`.
pub open spec fn named(what: Editing, categories: Seq<Category>, name: Seq<char>, fresh: Id) -> (Seq<CategoryView>, Option<Row>) {
    let views = category_views(categories);
    match what {
        Editing::NewCategory => (views.push(new_category(fresh, name, categories.len())), Some(Row::Category(fresh))),
        Editing::NewFocus(category) => match category_at(categories, category, 0) {
            Some(c) => (
                views.update(
                    c,
                    CategoryView { focuses: views[c].focuses.push(new_focus(fresh, name, categories[c].focuses@.len())), ..views[c] },
                ),
                Some(Row::Focus(fresh)),
            ),
            None => (views, None),
        },
        Editing::Rename(row) => match row {
            Row::Category(_) | Row::Focus(_) => match row_changed(categories, row, ChangeView::Name(name)) {
                Some(changed) => (changed, Some(row)),
                None => (views, None),
            },
            _ => (views, None),
        },
    }
}

/// What submitting the name field does: an empty name, once trimmed, is refused with the reason
/// beside the field; any other closes the field, adds or renames, selects the row and asks for
/// the catalogue to be written, saying so when a shown sibling already has the name. A new row
/// asks the application for a place after its siblings.
pub open spec fn submitted(v: TodayView, categories: Seq<Category>, fresh: Id) -> Step {
    match v.edit {
        None => unchanged(v, categories),
        Some(edit) => {
            let name = trimmed(edit.text);
            if name.len() == 0 {
                unchanged(TodayView { edit: Some(EditView { refused: true, ..edit }), ..v }, categories)
            } else {
                let collapsed = match edit.what {
                    Editing::NewFocus(category) => if category_at(categories, category, 0) is Some {
                        v.collapsed.remove(category)
                    } else {
                        v.collapsed
                    },
                    _ => v.collapsed,
                };
                let closed = TodayView { edit: None, collapsed, ..v };
                let (catalog, landed) = named(edit.what, categories, name, fresh);
                match landed {
                    None => Step { screen: closed, catalog, effects: seq![Effect::FocusTree], request: None },
                    Some(row) => {
                        let taken = if name_taken(edit.what, categories, name) {
                            seq![Effect::NameTaken(row)]
                        } else {
                            Seq::empty()
                        };
                        let place = match edit.what {
                            Editing::Rename(_) => Seq::empty(),
                            _ => seq![Effect::PlaceLast(row)],
                        };
                        Step {
                            screen: TodayView { selected: Some(row_key(row)), ..closed },
                            catalog,
                            effects: seq![Effect::FocusTree] + taken + place,
                            request: Some(Request::Changed),
                        }
                    },
                }
            }
        },
    }
}

/// What archiving the selected row does: a category or focus the catalogue has is archived,
/// the selection moves to where the row was (the category of a focus, or the add row at the
/// end), the effect offers to bring it back, and the catalogue wants writing.
pub open spec fn archived(v: TodayView, categories: Seq<Category>) -> Step {
    match selected_row(v) {
        Some(Row::Category(id)) => match row_changed(categories, Row::Category(id), ChangeView::Archived(true)) {
            Some(catalog) => Step {
                screen: TodayView { selected: Some(row_key(Row::AddCategory)), ..v },
                catalog,
                effects: seq![Effect::Archived(Row::Category(id))],
                request: Some(Request::Changed),
            },
            None => unchanged(v, categories),
        },
        Some(Row::Focus(id)) => match row_changed(categories, Row::Focus(id), ChangeView::Archived(true)) {
            Some(catalog) => Step {
                screen: TodayView { selected: Some(row_key(Row::Category(categories[focus_at(categories, id, 0).unwrap().0].id))), ..v },
                catalog,
                effects: seq![Effect::Archived(Row::Focus(id))],
                request: Some(Request::Changed),
            },
            None => unchanged(v, categories),
        },
        _ => unchanged(v, categories),
    }
}

/// The name of the category or focus `row`, the first one with its identifier.
pub open spec fn name_of(categories: Seq<Category>, row: Row) -> Option<Seq<char>> {
    match row {
        Row::Category(id) => match category_at(categories, id, 0) {
            Some(c) => Some(categories[c].name@),
            None => None,
        },
        Row::Focus(id) => match focus_at(categories, id, 0) {
            Some((c, f)) => Some(categories[c].focuses@[f].name@),
            None => None,
        },
        _ => None,
    }
}

/// The goal of the category or focus `row`, the first one with its identifier, when it has one.
pub open spec fn goal_of(categories: Seq<Category>, row: Row) -> Option<Goal> {
    match row {
        Row::Category(id) => match category_at(categories, id, 0) {
            Some(c) => categories[c].goal,
            None => None,
        },
        Row::Focus(id) => match focus_at(categories, id, 0) {
            Some((c, f)) => categories[c].focuses@[f].goal,
            None => None,
        },
        _ => None,
    }
}

/// What asking to rename the selection does: the name field opens on it with its name.
pub open spec fn renaming(v: TodayView, categories: Seq<Category>) -> Step {
    match selected_row(v) {
        Some(row) => match name_of(categories, row) {
            Some(name) => Step {
                screen: TodayView { edit: opened(Editing::Rename(row), name), ..v },
                catalog: category_views(categories),
                effects: seq![Effect::FocusName],
                request: None,
            },
            None => unchanged(v, categories),
        },
        None => unchanged(v, categories),
    }
}

/// What bringing back the archived row `row` does: it is no longer archived, it is selected,
/// and the catalogue wants writing; nothing when the catalogue does not have it.
pub open spec fn brought_back(v: TodayView, categories: Seq<Category>, row: Row) -> Step {
    match row_changed(categories, row, ChangeView::Archived(false)) {
        Some(catalog) => Step {
            screen: TodayView { selected: Some(row_key(row)), ..v },
            catalog,
            effects: seq![Effect::Restored(row)],
            request: Some(Request::Changed),
        },
        None => unchanged(v, categories),
    }
}

/// What opening the goal field does: it opens on the selected category or focus with its
/// goal when it has one, else with `suggested` seconds a week; the other fields close.
pub open spec fn goal_opened(v: TodayView, categories: Seq<Category>, suggested: u32) -> Step {
    match selected_row(v) {
        Some(row) => if name_of(categories, row) is Some {
            let current = goal_of(categories, row);
            let (amount, period) = match current {
                Some(goal) => (goal.amount as u64, goal.period),
                None => (suggested as u64, Period::Week),
            };
            Step {
                screen: TodayView {
                    edit: None,
                    timed: None,
                    goal: Some(GoalEdit { row, amount, period, had_goal: current is Some, refused: false }),
                    ..v
                },
                catalog: category_views(categories),
                effects: seq![Effect::FocusGoal],
                request: None,
            }
        } else {
            unchanged(v, categories)
        },
        None => unchanged(v, categories),
    }
}

/// `seconds` held to a `u32`.
pub open spec fn held_u32(seconds: u64) -> u32 {
    if seconds > u32::MAX {
        u32::MAX
    } else {
        seconds as u32
    }
}

/// What saving the goal field does: a zero length is refused with the reason beside the field;
/// any other becomes the row's goal, the field closes, the row is selected and the catalogue
/// wants writing.
pub open spec fn goal_saved(v: TodayView, categories: Seq<Category>) -> Step {
    match v.goal {
        None => unchanged(v, categories),
        Some(edit) => if edit.amount == 0 {
            unchanged(TodayView { goal: Some(GoalEdit { refused: true, ..edit }), ..v }, categories)
        } else {
            let closed = TodayView { goal: None, ..v };
            let goal = Goal { amount: held_u32(edit.amount), period: edit.period };
            match row_changed(categories, edit.row, ChangeView::Goal(Some(goal))) {
                Some(catalog) => Step {
                    screen: TodayView { selected: Some(row_key(edit.row)), ..closed },
                    catalog,
                    effects: seq![Effect::FocusTree, Effect::GoalSet(edit.row)],
                    request: Some(Request::Changed),
                },
                None => Step {
                    screen: closed,
                    catalog: category_views(categories),
                    effects: seq![Effect::FocusTree],
                    request: None,
                },
            }
        },
    }
}

/// What removing the goal does: the field closes, the row loses its goal and is selected, and
/// the catalogue wants writing when the row had a goal.
pub open spec fn goal_removed(v: TodayView, categories: Seq<Category>) -> Step {
    match v.goal {
        None => unchanged(v, categories),
        Some(edit) => {
            let closed = TodayView { goal: None, ..v };
            match row_changed(categories, edit.row, ChangeView::Goal(None)) {
                Some(catalog) => Step {
                    screen: TodayView { selected: Some(row_key(edit.row)), ..closed },
                    catalog,
                    effects: seq![Effect::FocusTree, Effect::GoalRemoved(edit.row)],
                    request: if edit.had_goal { Some(Request::Changed) } else { None },
                },
                None => Step {
                    screen: closed,
                    catalog: category_views(categories),
                    effects: seq![Effect::FocusTree],
                    request: None,
                },
            }
        },
    }
}

/// What opening the countdown field does: on a selected focus the catalogue has, it opens with
/// `suggested` seconds and the other fields close.
pub open spec fn timed_opened(v: TodayView, categories: Seq<Category>, suggested: u32) -> Step {
    match selected_row(v) {
        Some(Row::Focus(focus)) => if focus_at(categories, focus, 0) is Some {
            Step {
                screen: TodayView {
                    edit: None,
                    goal: None,
                    timed: Some(TimedStart { focus, amount: suggested as u64, refused: false }),
                    ..v
                },
                catalog: category_views(categories),
                effects: seq![Effect::FocusTimed],
                request: None,
            }
        } else {
            unchanged(v, categories)
        },
        _ => unchanged(v, categories),
    }
}

/// What submitting the countdown field does: a zero length is refused with the reason beside
/// the field; any other closes it and starts the focus counting down from it.
pub open spec fn timed_started(v: TodayView, categories: Seq<Category>) -> Step {
    match v.timed {
        None => unchanged(v, categories),
        Some(timed) => if timed.amount == 0 {
            unchanged(TodayView { timed: Some(TimedStart { refused: true, ..timed }), ..v }, categories)
        } else {
            Step {
                screen: TodayView { timed: None, ..v },
                catalog: category_views(categories),
                effects: seq![Effect::FocusTree],
                request: Some(Request::StartFor(timed.focus, held_u32(timed.amount))),
            }
        },
    }
}

/// The effects of closing a field: said when one was open, nothing otherwise.
pub open spec fn closing(was_open: bool) -> Seq<Effect> {
    if was_open {
        seq![Effect::Cancelled, Effect::FocusTree]
    } else {
        Seq::empty()
    }
}

/// What moving the focus `focus` under the category `target` does: it leaves the first
/// category that holds it and goes to the end of `target`, keeping its identifier and
/// everything else but its place; `target` opens, the focus is selected, and the catalogue
/// wants writing. Nothing when the focus is in no category, already under `target`, or the
/// catalogue has no `target`.
pub open spec fn moved_to(v: TodayView, categories: Seq<Category>, focus: Id, target: Id) -> Step {
    match focus_at(categories, focus, 0) {
        None => unchanged(v, categories),
        Some((holder, _)) => {
            let from = categories[holder].id;
            if from == target || category_at(categories, target, 0) is None {
                unchanged(v, categories)
            } else {
                match category_at(categories, from, 0) {
                    None => unchanged(v, categories),
                    Some(c) => match focus_index(categories[c].focuses@, focus, 0) {
                        None => unchanged(v, categories),
                        Some(f) => {
                            let views = category_views(categories);
                            let t = category_at(categories, target, 0).unwrap();
                            let taken = views[c].focuses[f];
                            let left = views.update(c, CategoryView { focuses: views[c].focuses.remove(f), ..views[c] });
                            let arrived = FocusView { order: OrderView { written: None, place: left[t].focuses.len() as usize }, ..taken };
                            Step {
                                screen: TodayView {
                                    collapsed: v.collapsed.remove(target),
                                    selected: Some(row_key(Row::Focus(focus))),
                                    ..v
                                },
                                catalog: left.update(t, CategoryView { focuses: left[t].focuses.push(arrived), ..left[t] }),
                                effects: seq![Effect::Moved { focus, category: target }, Effect::PlaceLast(Row::Focus(focus))],
                                request: Some(Request::Changed),
                            }
                        },
                    },
                }
            }
        },
    }
}

/// What an entry of the context menu of the row with the key `key` does: that row becomes
/// the selection, and the entry acts on it.
pub open spec fn menu_chosen(v: TodayView, categories: Seq<Category>, key: Seq<char>, action: MenuAction) -> Step {
    let chosen = TodayView { selected: Some(key), ..v };
    match action {
        MenuAction::Start => activated(chosen, categories, key),
        MenuAction::Rename => renaming(chosen, categories),
        MenuAction::Archive => archived(chosen, categories),
        MenuAction::AddFocus => match row_of_key(key) {
            Some(Row::Category(id)) | Some(Row::Focus(id)) | Some(Row::AddFocus(id)) => {
                let category = match focus_at(categories, id, 0) {
                    Some((c, _)) => categories[c].id,
                    None => id,
                };
                activated(chosen, categories, row_key(Row::AddFocus(category)))
            },
            _ => unchanged(chosen, categories),
        },
        MenuAction::AddCategory => activated(chosen, categories, row_key(Row::AddCategory)),
        MenuAction::MoveTo(target) => match row_of_key(key) {
            Some(Row::Focus(focus)) => moved_to(chosen, categories, focus, target),
            _ => unchanged(chosen, categories),
        },
        MenuAction::Goal(suggested) => goal_opened(chosen, categories, suggested),
        MenuAction::Timed(suggested) => timed_opened(chosen, categories, suggested),
    }
}

/// The period at `index` among day, week and month.
pub open spec fn period_at(index: int) -> Option<Period> {
    if index == 0 {
        Some(Period::Day)
    } else if index == 1 {
        Some(Period::Week)
    } else if index == 2 {
        Some(Period::Month)
    } else {
        None
    }
}

/// What `msg` does to the screen and the catalogue; a new category or focus takes the
/// identifier `fresh`.
pub open spec fn today_updated(v: TodayView, categories: Seq<Category>, msg: Msg, fresh: Id) -> Step {
    match msg {
        Msg::Select(key) => unchanged(TodayView { selected: Some(key@), ..v }, categories),
        Msg::Activate(key) => activated(v, categories, key@),
        Msg::Expand(key, open) => match row_of_key(key@) {
            Some(Row::Category(id)) => unchanged(
                TodayView { collapsed: if open { v.collapsed.remove(id) } else { v.collapsed.insert(id) }, ..v },
                categories,
            ),
            _ => unchanged(v, categories),
        },
        Msg::Typed(text) => match v.edit {
            Some(edit) => unchanged(TodayView { edit: Some(EditView { text: text@, refused: false, ..edit }), ..v }, categories),
            None => unchanged(v, categories),
        },
        Msg::Submit => submitted(v, categories, fresh),
        Msg::Cancel => Step {
            screen: TodayView { edit: None, ..v },
            catalog: category_views(categories),
            effects: closing(v.edit is Some),
            request: None,
        },
        Msg::Archive => archived(v, categories),
        Msg::Rename => renaming(v, categories),
        Msg::Restore(row) => brought_back(v, categories, row),
        Msg::Block(index) => unchanged(TodayView { block: Some(index), ..v }, categories),
        Msg::Zoom(from, to) => unchanged(TodayView { zoom: if from != to { Some((from, to)) } else { None }, ..v }, categories),
        Msg::Menu(key, action) => menu_chosen(v, categories, key@, action),
        Msg::Goal(suggested) => goal_opened(v, categories, suggested),
        Msg::GoalAmount(seconds) => match v.goal {
            Some(edit) => unchanged(TodayView { goal: Some(GoalEdit { amount: seconds, refused: false, ..edit }), ..v }, categories),
            None => unchanged(v, categories),
        },
        Msg::GoalPeriod(index) => match (v.goal, period_at(index as int)) {
            (Some(edit), Some(period)) => unchanged(TodayView { goal: Some(GoalEdit { period, ..edit }), ..v }, categories),
            _ => unchanged(v, categories),
        },
        Msg::GoalSave => goal_saved(v, categories),
        Msg::GoalRemove => goal_removed(v, categories),
        Msg::GoalCancel => Step {
            screen: TodayView { goal: None, ..v },
            catalog: category_views(categories),
            effects: closing(v.goal is Some),
            request: None,
        },
        Msg::Timed(suggested) => timed_opened(v, categories, suggested),
        Msg::TimedAmount(seconds) => match v.timed {
            Some(timed) => unchanged(TodayView { timed: Some(TimedStart { amount: seconds, refused: false, ..timed }), ..v }, categories),
            None => unchanged(v, categories),
        },
        Msg::TimedStart => timed_started(v, categories),
        Msg::TimedCancel => Step {
            screen: TodayView { timed: None, ..v },
            catalog: category_views(categories),
            effects: closing(v.timed is Some),
            request: None,
        },
    }
}

/// Whether a shown sibling of what the name field is for already has the name `name`.
fn is_taken(what: Editing, categories: &Vec<Category>, name: &Vec<char>) -> (taken: bool)
    ensures
        taken == name_taken(what, categories@, name@),
{
    match what {
        Editing::NewCategory | Editing::Rename(Row::Category(_)) => {
            let own: Option<Id> = match what {
                Editing::Rename(Row::Category(id)) => Some(id),
                _ => None,
            };
            let mut k: usize = 0;
            while k < categories.len()
                invariant
                    k <= categories@.len(),
                    own == match what {
                        Editing::Rename(Row::Category(id)) => Some(id),
                        _ => None,
                    },
                    what is NewCategory || what matches Editing::Rename(Row::Category(_)),
                    forall|j: int|
                        0 <= j < k ==> !(!categories@[j].archived && Some(categories@[j].id) != own && #[trigger] categories@[j].name@
                            == name@),
                decreases categories@.len() - k,
            {
                let category = &categories[k];
                if !category.archived && Some(category.id) != own && chars_are(name.as_slice(), category.name.as_str()) {
                    assert(categories@[k as int].name@ == name@);
                    return true;
                }
                k = k + 1;
            }
            false
        },
        Editing::NewFocus(category) => match find_category(categories, category) {
            Some(c) => any_named(&categories[c].focuses, None, name),
            None => false,
        },
        Editing::Rename(Row::Focus(id)) => match find_focus(categories, id) {
            Some((c, _)) => any_named(&categories[c].focuses, Some(id), name),
            None => false,
        },
        Editing::Rename(_) => false,
    }
}

/// Whether one of `focuses` that is not archived, other than `other`, has the name `name`.
fn any_named(focuses: &Vec<Focus>, other: Option<Id>, name: &Vec<char>) -> (found: bool)
    ensures
        found == match other {
            None => exists|j: int| 0 <= j < focuses@.len() && !focuses@[j].archived && #[trigger] focuses@[j].name@ == name@,
            Some(id) => exists|j: int|
                0 <= j < focuses@.len() && !focuses@[j].archived && focuses@[j].id != id && #[trigger] focuses@[j].name@ == name@,
        },
{
    let mut j: usize = 0;
    while j < focuses.len()
        invariant
            j <= focuses@.len(),
            forall|i: int|
                0 <= i < j ==> !(!focuses@[i].archived && Some(focuses@[i].id) != other && #[trigger] focuses@[i].name@ == name@),
        decreases focuses@.len() - j,
    {
        let focus = &focuses[j];
        if !focus.archived && Some(focus.id) != other && chars_are(name.as_slice(), focus.name.as_str()) {
            assert(focuses@[j as int].name@ == name@);
            return true;
        }
        j = j + 1;
    }
    false
}

/// The name of the category or focus `row`, the first one with its identifier.
fn name_of_row(categories: &Vec<Category>, row: Row) -> (name: Option<String>)
    ensures
        match name {
            Some(n) => name_of(categories@, row) == Some(n@),
            None => name_of(categories@, row) is None,
        },
{
    proof {
        match row {
            Row::Focus(id) => lemma_focus_at_found(categories@, id, 0),
            _ => {},
        }
    }
    match row {
        Row::Category(id) => match find_category(categories, id) {
            Some(c) => Some(categories[c].name.clone()),
            None => None,
        },
        Row::Focus(id) => match find_focus(categories, id) {
            Some((c, f)) => Some(categories[c].focuses[f].name.clone()),
            None => None,
        },
        _ => None,
    }
}

/// The goal of the category or focus `row`, the first one with its identifier.
fn goal_of_row(categories: &Vec<Category>, row: Row) -> (goal: Option<Goal>)
    ensures
        goal == goal_of(categories@, row),
{
    proof {
        match row {
            Row::Focus(id) => lemma_focus_at_found(categories@, id, 0),
            _ => {},
        }
    }
    match row {
        Row::Category(id) => match find_category(categories, id) {
            Some(c) => categories[c].goal,
            None => None,
        },
        Row::Focus(id) => match find_focus(categories, id) {
            Some((c, f)) => categories[c].focuses[f].goal,
            None => None,
        },
        _ => None,
    }
}

/// No effect.
fn no_effect() -> (effects: Vec<Effect>)
    ensures
        effects@ == Seq::<Effect>::empty(),
{
    let effects: Vec<Effect> = Vec::new();
    assert(effects@ =~= Seq::<Effect>::empty());
    effects
}

/// The one effect `e`.
fn effect(e: Effect) -> (effects: Vec<Effect>)
    ensures
        effects@ == seq![e],
{
    let mut effects: Vec<Effect> = Vec::new();
    effects.push(e);
    assert(effects@ =~= seq![e]);
    effects
}

/// The effects `a` and then `b`.
fn effects_of(a: Effect, b: Effect) -> (effects: Vec<Effect>)
    ensures
        effects@ == seq![a, b],
{
    let mut effects: Vec<Effect> = Vec::new();
    effects.push(a);
    effects.push(b);
    assert(effects@ =~= seq![a, b]);
    effects
}

/// Activates the row with the key `key`.
fn activate(screen: &mut Today, catalog: &Tree, key: String) -> (answer: (Vec<Effect>, Option<Request>))
    ensures
        took(activated(old(screen)@, catalog.categories@, key@), final(screen)@, catalog.categories@, answer),
{
    let row = Row::parse(key.as_str());
    screen.selected = Some(key);
    match row {
        Some(Row::Focus(id)) => {
            if find_focus(&catalog.categories, id).is_some() {
                (no_effect(), Some(Request::Start(id)))
            } else {
                (no_effect(), None)
            }
        },
        Some(Row::AddFocus(id)) => {
            screen.edit = Some(Edit { what: Editing::NewFocus(id), text: String::new(), refused: false });
            (effect(Effect::FocusName), None)
        },
        Some(Row::AddCategory) => {
            screen.edit = Some(Edit { what: Editing::NewCategory, text: String::new(), refused: false });
            (effect(Effect::FocusName), None)
        },
        _ => (no_effect(), None),
    }
}

/// Takes the typed name.
fn submit(screen: &mut Today, catalog: &mut Tree, fresh: Id) -> (answer: (Vec<Effect>, Option<Request>))
    ensures
        took(submitted(old(screen)@, old(catalog).categories@, fresh), final(screen)@, final(catalog).categories@, answer),
{
    let (what, text) = match &screen.edit {
        None => {
            return (no_effect(), None);
        },
        Some(edit) => (edit.what, edit.text.clone()),
    };
    let name_chars = trim(chars_of(text.as_str()).as_slice());
    if name_chars.len() == 0 {
        screen.edit = Some(Edit { what, text, refused: true });
        return (no_effect(), None);
    }
    let name = string_of(&name_chars);
    screen.edit = None;
    let taken = is_taken(what, &catalog.categories, &name_chars);
    let ghost before = catalog.categories@;
    let landed: Option<Row> = match what {
        Editing::NewCategory => {
            let place = catalog.categories.len();
            catalog.categories.push(
                Category {
                    id: fresh,
                    name,
                    icon: None,
                    goal: None,
                    archived: false,
                    order: Order { written: None, place },
                    focuses: Vec::new(),
                },
            );
            assert(category_views(catalog.categories@) =~= category_views(before).push(
                new_category(fresh, name_chars@, before.len()),
            )) by {
                assert(focus_views(catalog.categories@[before.len() as int].focuses@) =~= Seq::<FocusView>::empty());
            }
            Some(Row::Category(fresh))
        },
        Editing::NewFocus(category) => match find_category(&catalog.categories, category) {
            Some(c) => {
                let mut parent = catalog.categories.remove(c);
                let ghost focuses_before = parent.focuses@;
                let place = parent.focuses.len();
                parent.focuses.push(Focus { id: fresh, name, goal: None, archived: false, order: Order { written: None, place } });
                assert(focus_views(parent.focuses@) =~= focus_views(focuses_before).push(new_focus(fresh, name_chars@, focuses_before.len())));
                catalog.categories.insert(c, parent);
                assert(catalog.categories@ =~= before.update(c as int, parent));
                assert(category_views(catalog.categories@) =~= category_views(before).update(c as int, parent@));
                open_category(&mut screen.collapsed, category);
                Some(Row::Focus(fresh))
            },
            None => None,
        },
        Editing::Rename(row) => match row {
            Row::Category(_) | Row::Focus(_) => {
                if change_row(&mut catalog.categories, row, Change::Name(name)) {
                    Some(row)
                } else {
                    None
                }
            },
            _ => None,
        },
    };
    match landed {
        None => (effect(Effect::FocusTree), None),
        Some(row) => {
            screen.selected = Some(row.key());
            let mut effects = effect(Effect::FocusTree);
            if taken {
                effects.push(Effect::NameTaken(row));
            }
            match what {
                Editing::Rename(_) => {},
                _ => {
                    effects.push(Effect::PlaceLast(row));
                },
            }
            proof {
                let taken_effects = if taken { seq![Effect::NameTaken(row)] } else { Seq::<Effect>::empty() };
                let place = match what {
                    Editing::Rename(_) => Seq::<Effect>::empty(),
                    _ => seq![Effect::PlaceLast(row)],
                };
                assert(effects@ =~= seq![Effect::FocusTree] + taken_effects + place);
            }
            (effects, Some(Request::Changed))
        },
    }
}

/// Archives the selected category or focus.
fn archive(screen: &mut Today, catalog: &mut Tree) -> (answer: (Vec<Effect>, Option<Request>))
    ensures
        took(archived(old(screen)@, old(catalog).categories@), final(screen)@, final(catalog).categories@, answer),
{
    match screen.selected() {
        Some(Row::Category(id)) => {
            if change_row(&mut catalog.categories, Row::Category(id), Change::Archived(true)) {
                screen.selected = Some(Row::AddCategory.key());
                (effect(Effect::Archived(Row::Category(id))), Some(Request::Changed))
            } else {
                (no_effect(), None)
            }
        },
        Some(Row::Focus(id)) => {
            let spot = find_focus(&catalog.categories, id);
            let ghost before = catalog.categories@;
            if change_row(&mut catalog.categories, Row::Focus(id), Change::Archived(true)) {
                match spot {
                    Some((c, _)) => {
                        assert(category_views(catalog.categories@).len() == catalog.categories@.len());
                        assert(category_views(before).len() == before.len());
                        assert(category_views(catalog.categories@)[c as int].id == category_views(before)[c as int].id);
                        let holder = catalog.categories[c].id;
                        screen.selected = Some(Row::Category(holder).key());
                    },
                    None => {},
                }
                (effect(Effect::Archived(Row::Focus(id))), Some(Request::Changed))
            } else {
                (no_effect(), None)
            }
        },
        _ => (no_effect(), None),
    }
}

/// Opens the name field on the selection, with its name.
fn start_renaming(screen: &mut Today, catalog: &Tree) -> (answer: (Vec<Effect>, Option<Request>))
    ensures
        took(renaming(old(screen)@, catalog.categories@), final(screen)@, catalog.categories@, answer),
{
    match screen.selected() {
        Some(row) => match name_of_row(&catalog.categories, row) {
            Some(name) => {
                screen.edit = Some(Edit { what: Editing::Rename(row), text: name, refused: false });
                (effect(Effect::FocusName), None)
            },
            None => (no_effect(), None),
        },
        None => (no_effect(), None),
    }
}

/// Brings the archived row `row` back.
fn bring_back(screen: &mut Today, catalog: &mut Tree, row: Row) -> (answer: (Vec<Effect>, Option<Request>))
    ensures
        took(brought_back(old(screen)@, old(catalog).categories@, row), final(screen)@, final(catalog).categories@, answer),
{
    if change_row(&mut catalog.categories, row, Change::Archived(false)) {
        screen.selected = Some(row.key());
        (effect(Effect::Restored(row)), Some(Request::Changed))
    } else {
        (no_effect(), None)
    }
}

/// Opens the goal field on the selected category or focus: with its goal when it has one, else
/// with `suggested` seconds a week.
fn open_goal(screen: &mut Today, catalog: &Tree, suggested: u32) -> (answer: (Vec<Effect>, Option<Request>))
    ensures
        took(goal_opened(old(screen)@, catalog.categories@, suggested), final(screen)@, catalog.categories@, answer),
{
    match screen.selected() {
        Some(row) => {
            if name_of_row(&catalog.categories, row).is_none() {
                return (no_effect(), None);
            }
            let current = goal_of_row(&catalog.categories, row);
            let (amount, period) = match current {
                Some(goal) => (goal.amount as u64, goal.period),
                None => (suggested as u64, Period::Week),
            };
            screen.edit = None;
            screen.timed = None;
            screen.goal = Some(GoalEdit { row, amount, period, had_goal: current.is_some(), refused: false });
            (effect(Effect::FocusGoal), None)
        },
        None => (no_effect(), None),
    }
}

/// `seconds` held to a `u32`.
fn to_u32(seconds: u64) -> (held: u32)
    ensures
        held == held_u32(seconds),
{
    if seconds > u32::MAX as u64 {
        u32::MAX
    } else {
        seconds as u32
    }
}

/// Sets the row's goal to what the goal field holds.
fn save_goal(screen: &mut Today, catalog: &mut Tree) -> (answer: (Vec<Effect>, Option<Request>))
    ensures
        took(goal_saved(old(screen)@, old(catalog).categories@), final(screen)@, final(catalog).categories@, answer),
{
    let edit = match screen.goal {
        Some(edit) => edit,
        None => {
            return (no_effect(), None);
        },
    };
    if edit.amount == 0 {
        screen.goal = Some(GoalEdit { refused: true, ..edit });
        return (no_effect(), None);
    }
    let goal = Goal { amount: to_u32(edit.amount), period: edit.period };
    screen.goal = None;
    if change_row(&mut catalog.categories, edit.row, Change::Goal(Some(goal))) {
        screen.selected = Some(edit.row.key());
        (effects_of(Effect::FocusTree, Effect::GoalSet(edit.row)), Some(Request::Changed))
    } else {
        (effect(Effect::FocusTree), None)
    }
}

/// Takes the goal off the row the goal field is open on.
fn remove_goal(screen: &mut Today, catalog: &mut Tree) -> (answer: (Vec<Effect>, Option<Request>))
    ensures
        took(goal_removed(old(screen)@, old(catalog).categories@), final(screen)@, final(catalog).categories@, answer),
{
    let edit = match screen.goal {
        Some(edit) => edit,
        None => {
            return (no_effect(), None);
        },
    };
    screen.goal = None;
    if change_row(&mut catalog.categories, edit.row, Change::Goal(None)) {
        screen.selected = Some(edit.row.key());
        (effects_of(Effect::FocusTree, Effect::GoalRemoved(edit.row)), if edit.had_goal {
            Some(Request::Changed)
        } else {
            None
        })
    } else {
        (effect(Effect::FocusTree), None)
    }
}

/// Opens the countdown field on the selected focus.
fn open_timed(screen: &mut Today, catalog: &Tree, suggested: u32) -> (answer: (Vec<Effect>, Option<Request>))
    ensures
        took(timed_opened(old(screen)@, catalog.categories@, suggested), final(screen)@, catalog.categories@, answer),
{
    match screen.selected() {
        Some(Row::Focus(focus)) => {
            if find_focus(&catalog.categories, focus).is_some() {
                screen.edit = None;
                screen.goal = None;
                screen.timed = Some(TimedStart { focus, amount: suggested as u64, refused: false });
                (effect(Effect::FocusTimed), None)
            } else {
                (no_effect(), None)
            }
        },
        _ => (no_effect(), None),
    }
}

/// Starts the focus of the countdown field counting down.
fn start_timed(screen: &mut Today, catalog: &Tree) -> (answer: (Vec<Effect>, Option<Request>))
    ensures
        took(timed_started(old(screen)@, catalog.categories@), final(screen)@, catalog.categories@, answer),
{
    let timed = match screen.timed {
        Some(timed) => timed,
        None => {
            return (no_effect(), None);
        },
    };
    if timed.amount == 0 {
        screen.timed = Some(TimedStart { refused: true, ..timed });
        return (no_effect(), None);
    }
    screen.timed = None;
    (effect(Effect::FocusTree), Some(Request::StartFor(timed.focus, to_u32(timed.amount))))
}

/// Moves the focus `focus` to the end of the category `target`.
fn move_focus(screen: &mut Today, catalog: &mut Tree, focus: Id, target: Id) -> (answer: (Vec<Effect>, Option<Request>))
    ensures
        took(moved_to(old(screen)@, old(catalog).categories@, focus, target), final(screen)@, final(catalog).categories@, answer),
{
    let holder = match find_focus(&catalog.categories, focus) {
        None => {
            return (no_effect(), None);
        },
        Some((c, _)) => c,
    };
    let from = catalog.categories[holder].id;
    if from == target {
        return (no_effect(), None);
    }
    let t = match find_category(&catalog.categories, target) {
        None => {
            return (no_effect(), None);
        },
        Some(t) => t,
    };
    let c = match find_category(&catalog.categories, from) {
        None => {
            return (no_effect(), None);
        },
        Some(c) => c,
    };
    let f = match find_in(&catalog.categories[c].focuses, focus) {
        None => {
            return (no_effect(), None);
        },
        Some(f) => f,
    };
    proof {
        lemma_focus_index_found(catalog.categories@[c as int].focuses@, focus, 0);
    }
    let ghost before = catalog.categories@;
    let ghost views = category_views(before);
    let mut source = catalog.categories.remove(c);
    let ghost source_focuses = source.focuses@;
    let taken = source.focuses.remove(f);
    assert(focus_views(source.focuses@) =~= focus_views(source_focuses).remove(f as int));
    catalog.categories.insert(c, source);
    assert(catalog.categories@ =~= before.update(c as int, source));
    let ghost left = views.update(c as int, CategoryView { focuses: views[c as int].focuses.remove(f as int), ..views[c as int] });
    assert(category_views(catalog.categories@) =~= left);
    let ghost middle = catalog.categories@;
    let mut into = catalog.categories.remove(t);
    let ghost into_focuses = into.focuses@;
    let place = into.focuses.len();
    let arrived = Focus { id: taken.id, name: taken.name, goal: taken.goal, archived: taken.archived, order: Order { written: None, place } };
    into.focuses.push(arrived);
    assert(focus_views(into.focuses@) =~= focus_views(into_focuses).push(arrived@));
    catalog.categories.insert(t, into);
    assert(catalog.categories@ =~= middle.update(t as int, into));
    assert(category_views(catalog.categories@) =~= left.update(
        t as int,
        CategoryView { focuses: left[t as int].focuses.push(arrived@), ..left[t as int] },
    ));
    open_category(&mut screen.collapsed, target);
    screen.selected = Some(Row::Focus(focus).key());
    (effects_of(Effect::Moved { focus, category: target }, Effect::PlaceLast(Row::Focus(focus))), Some(Request::Changed))
}

/// Acts on the row with the key `key`, from its context menu.
fn act_from_menu(screen: &mut Today, catalog: &mut Tree, key: String, action: MenuAction) -> (answer: (Vec<Effect>, Option<Request>))
    ensures
        took(menu_chosen(old(screen)@, old(catalog).categories@, key@, action), final(screen)@, final(catalog).categories@, answer),
{
    let row = Row::parse(key.as_str());
    screen.selected = Some(key.clone());
    match action {
        MenuAction::Start => activate(screen, catalog, key),
        MenuAction::Rename => start_renaming(screen, catalog),
        MenuAction::Archive => archive(screen, catalog),
        MenuAction::AddFocus => match row {
            Some(Row::Category(id)) | Some(Row::Focus(id)) | Some(Row::AddFocus(id)) => {
                let category = match find_focus(&catalog.categories, id) {
                    Some((c, _)) => catalog.categories[c].id,
                    None => id,
                };
                activate(screen, catalog, Row::AddFocus(category).key())
            },
            _ => (no_effect(), None),
        },
        MenuAction::AddCategory => activate(screen, catalog, Row::AddCategory.key()),
        MenuAction::MoveTo(target) => match row {
            Some(Row::Focus(focus)) => move_focus(screen, catalog, focus, target),
            _ => (no_effect(), None),
        },
        MenuAction::Goal(suggested) => open_goal(screen, catalog, suggested),
        MenuAction::Timed(suggested) => open_timed(screen, catalog, suggested),
    }
}

/// Applies `msg` to the screen and the catalogue, and says what the application should show
/// and do; a new category or focus takes the identifier `fresh`.
pub fn update(screen: &mut Today, catalog: &mut Tree, msg: Msg, fresh: Id) -> (answer: (Vec<Effect>, Option<Request>))
    ensures
        took(today_updated(old(screen)@, old(catalog).categories@, msg, fresh), final(screen)@, final(catalog).categories@, answer),
{
    match msg {
        Msg::Select(key) => {
            screen.selected = Some(key);
            (no_effect(), None)
        },
        Msg::Activate(key) => activate(screen, catalog, key),
        Msg::Expand(key, open) => {
            match Row::parse(key.as_str()) {
                Some(Row::Category(id)) => {
                    if open {
                        open_category(&mut screen.collapsed, id);
                    } else {
                        close_category(&mut screen.collapsed, id);
                    }
                },
                _ => {},
            }
            (no_effect(), None)
        },
        Msg::Typed(text) => {
            match &screen.edit {
                Some(edit) => {
                    let what = edit.what;
                    screen.edit = Some(Edit { what, text, refused: false });
                },
                None => {},
            }
            (no_effect(), None)
        },
        Msg::Submit => submit(screen, catalog, fresh),
        Msg::Cancel => {
            let was_open = screen.edit.is_some();
            screen.edit = None;
            if was_open {
                (effects_of(Effect::Cancelled, Effect::FocusTree), None)
            } else {
                (no_effect(), None)
            }
        },
        Msg::Archive => archive(screen, catalog),
        Msg::Rename => start_renaming(screen, catalog),
        Msg::Restore(row) => bring_back(screen, catalog, row),
        Msg::Block(index) => {
            screen.block = Some(index);
            (no_effect(), None)
        },
        Msg::Zoom(from, to) => {
            screen.zoom = if from != to {
                Some((from, to))
            } else {
                None
            };
            (no_effect(), None)
        },
        Msg::Menu(key, action) => act_from_menu(screen, catalog, key, action),
        Msg::Goal(suggested) => open_goal(screen, catalog, suggested),
        Msg::GoalAmount(seconds) => {
            match screen.goal {
                Some(edit) => {
                    screen.goal = Some(GoalEdit { amount: seconds, refused: false, ..edit });
                },
                None => {},
            }
            (no_effect(), None)
        },
        Msg::GoalPeriod(index) => {
            let period = if index == 0 {
                Some(Period::Day)
            } else if index == 1 {
                Some(Period::Week)
            } else if index == 2 {
                Some(Period::Month)
            } else {
                None
            };
            match (screen.goal, period) {
                (Some(edit), Some(period)) => {
                    screen.goal = Some(GoalEdit { period, ..edit });
                },
                _ => {},
            }
            (no_effect(), None)
        },
        Msg::GoalSave => save_goal(screen, catalog),
        Msg::GoalRemove => remove_goal(screen, catalog),
        Msg::GoalCancel => {
            let was_open = screen.goal.is_some();
            screen.goal = None;
            if was_open {
                (effects_of(Effect::Cancelled, Effect::FocusTree), None)
            } else {
                (no_effect(), None)
            }
        },
        Msg::Timed(suggested) => open_timed(screen, catalog, suggested),
        Msg::TimedAmount(seconds) => {
            match screen.timed {
                Some(timed) => {
                    screen.timed = Some(TimedStart { amount: seconds, refused: false, ..timed });
                },
                None => {},
            }
            (no_effect(), None)
        },
        Msg::TimedStart => start_timed(screen, catalog),
        Msg::TimedCancel => {
            let was_open = screen.timed.is_some();
            screen.timed = None;
            if was_open {
                (effects_of(Effect::Cancelled, Effect::FocusTree), None)
            } else {
                (no_effect(), None)
            }
        },
    }
}

/// An entry of a row's context menu.
#[derive(Debug, Clone, Copy, PartialEq, Eq, Structural)]
pub enum MenuEntry {
    /// Start counting the focus; offered only where a focus may be started.
    Start { enabled: bool },
    /// Start the focus with a countdown suggested from these seconds.
    Timed { suggested: u32, enabled: bool },
    /// Rename the row.
    Rename,
    /// Set, change or remove the goal, a new one starting from these seconds.
    Goal(u32),
    /// A gap between groups of entries.
    Gap,
    /// Move the focus under another category: the categories come with the entries; offered
    /// only when there is one.
    Move { enabled: bool },
    /// Archive the row, the one entry that takes it out of the list.
    Archive,
    /// Add a focus under the category.
    AddFocus,
    /// Add a category at the end.
    AddCategory,
}

/// What the context menu of a row needs to know about the catalogue: the categories shown, in
/// their order, the category each shown focus is in, whether a focus may be started here, and
/// what the goal and countdown fields suggest, in seconds.
pub struct MenuNames {
    pub categories: Vec<Id>,
    pub owners: Vec<(Id, Id)>,
    pub can_start: bool,
    pub suggested: u32,
}

/// The category `focus` is in, among the first `n` of `owners`: the first that names it.
pub open spec fn owner_in(owners: Seq<(Id, Id)>, focus: Id, n: int) -> Option<Id>
    decreases n,
{
    if n <= 0 {
        None
    } else {
        match owner_in(owners, focus, n - 1) {
            Some(owner) => Some(owner),
            None => if owners[n - 1].0 == focus {
                Some(owners[n - 1].1)
            } else {
                None
            },
        }
    }
}

/// The first `n` of `categories` other than `owner`, in order.
pub open spec fn elsewhere(categories: Seq<Id>, owner: Option<Id>, n: int) -> Seq<Id>
    decreases n,
{
    if n <= 0 {
        Seq::empty()
    } else if Some(categories[n - 1]) != owner {
        elsewhere(categories, owner, n - 1).push(categories[n - 1])
    } else {
        elsewhere(categories, owner, n - 1)
    }
}

/// The shown categories and their shown focuses of the first `n` categories, as
/// [`MenuNames::of`] collects them.
pub open spec fn shown_of(categories: Seq<Category>, n: int) -> (Seq<Id>, Seq<(Id, Id)>)
    decreases n,
{
    if n <= 0 {
        (Seq::empty(), Seq::empty())
    } else {
        let (ids, owners) = shown_of(categories, n - 1);
        let category = categories[n - 1];
        if category.archived {
            (ids, owners)
        } else {
            (ids.push(category.id), owners + shown_focuses(category.focuses@, category.focuses@.len() as int, category.id))
        }
    }
}

/// The shown focuses among the first `n` of `focuses`, each with the category `owner`.
pub open spec fn shown_focuses(focuses: Seq<Focus>, n: int, owner: Id) -> Seq<(Id, Id)>
    decreases n,
{
    if n <= 0 {
        Seq::empty()
    } else if focuses[n - 1].archived {
        shown_focuses(focuses, n - 1, owner)
    } else {
        shown_focuses(focuses, n - 1, owner).push((focuses[n - 1].id, owner))
    }
}

/// The entries of the menu of the row with the key `key`, and the categories its move entry
/// offers: what the row can do, then where it can go, then what archives it.
pub open spec fn menu_of(
    categories: Seq<Id>,
    owners: Seq<(Id, Id)>,
    can_start: bool,
    suggested: u32,
    key: Seq<char>,
) -> (Seq<MenuEntry>, Seq<Id>) {
    match row_of_key(key) {
        Some(Row::Focus(id)) => {
            let others = elsewhere(categories, owner_in(owners, id, owners.len() as int), categories.len() as int);
            (
                seq![
                    MenuEntry::Start { enabled: can_start },
                    MenuEntry::Timed { suggested, enabled: can_start },
                    MenuEntry::Rename,
                    MenuEntry::Goal(suggested),
                    MenuEntry::Gap,
                    MenuEntry::Move { enabled: others.len() > 0 },
                    MenuEntry::Gap,
                    MenuEntry::Archive,
                ],
                others,
            )
        },
        Some(Row::Category(_)) => (
            seq![MenuEntry::Rename, MenuEntry::Goal(suggested), MenuEntry::AddFocus, MenuEntry::Gap, MenuEntry::Archive],
            Seq::empty(),
        ),
        Some(Row::AddFocus(_)) => (seq![MenuEntry::AddFocus], Seq::empty()),
        Some(Row::AddCategory) => (seq![MenuEntry::AddCategory], Seq::empty()),
        None => (Seq::empty(), Seq::empty()),
    }
}

impl MenuNames {
    /// What the menus need of `catalog`: its categories that are not archived, in the order
    /// the catalogue holds them, and the focuses of each that are not archived.
    pub fn of(catalog: &Tree, can_start: bool, suggested: u32) -> (names: Self)
        ensures
            names.categories@ == shown_of(catalog.categories@, catalog.categories@.len() as int).0,
            names.owners@ == shown_of(catalog.categories@, catalog.categories@.len() as int).1,
            names.can_start == can_start,
            names.suggested == suggested,
    {
        let mut categories: Vec<Id> = Vec::new();
        let mut owners: Vec<(Id, Id)> = Vec::new();
        let mut k: usize = 0;
        while k < catalog.categories.len()
            invariant
                k <= catalog.categories@.len(),
                categories@ == shown_of(catalog.categories@, k as int).0,
                owners@ == shown_of(catalog.categories@, k as int).1,
            decreases catalog.categories@.len() - k,
        {
            let category = &catalog.categories[k];
            if !category.archived {
                categories.push(category.id);
                let ghost start = owners@;
                let mut j: usize = 0;
                while j < category.focuses.len()
                    invariant
                        j <= category.focuses@.len(),
                        owners@ == start + shown_focuses(category.focuses@, j as int, category.id),
                    decreases category.focuses@.len() - j,
                {
                    if !category.focuses[j].archived {
                        owners.push((category.focuses[j].id, category.id));
                    }
                    j = j + 1;
                    assert(owners@ =~= start + shown_focuses(category.focuses@, j as int, category.id));
                }
            }
            k = k + 1;
        }
        MenuNames { categories, owners, can_start, suggested }
    }

    /// The entries of the menu of the row with the key `key`, and the categories its move
    /// entry offers, every shown one but the focus's own.
    pub fn items(&self, key: &str) -> (menu: (Vec<MenuEntry>, Vec<Id>))
        ensures
            (menu.0@, menu.1@) == menu_of(self.categories@, self.owners@, self.can_start, self.suggested, key@),
    {
        match Row::parse(key) {
            Some(Row::Focus(id)) => {
                let mut owner: Option<Id> = None;
                let mut i: usize = 0;
                while i < self.owners.len()
                    invariant
                        i <= self.owners@.len(),
                        owner == owner_in(self.owners@, id, i as int),
                    decreases self.owners@.len() - i,
                {
                    if owner.is_none() && self.owners[i].0 == id {
                        owner = Some(self.owners[i].1);
                    }
                    i = i + 1;
                }
                let mut others: Vec<Id> = Vec::new();
                let mut c: usize = 0;
                while c < self.categories.len()
                    invariant
                        c <= self.categories@.len(),
                        others@ == elsewhere(self.categories@, owner, c as int),
                    decreases self.categories@.len() - c,
                {
                    if Some(self.categories[c]) != owner {
                        others.push(self.categories[c]);
                    }
                    c = c + 1;
                }
                let mut entries: Vec<MenuEntry> = Vec::new();
                entries.push(MenuEntry::Start { enabled: self.can_start });
                entries.push(MenuEntry::Timed { suggested: self.suggested, enabled: self.can_start });
                entries.push(MenuEntry::Rename);
                entries.push(MenuEntry::Goal(self.suggested));
                entries.push(MenuEntry::Gap);
                entries.push(MenuEntry::Move { enabled: others.len() > 0 });
                entries.push(MenuEntry::Gap);
                entries.push(MenuEntry::Archive);
                assert(entries@ =~= menu_of(self.categories@, self.owners@, self.can_start, self.suggested, key@).0);
                (entries, others)
            },
            Some(Row::Category(_)) => {
                let mut entries: Vec<MenuEntry> = Vec::new();
                entries.push(MenuEntry::Rename);
                entries.push(MenuEntry::Goal(self.suggested));
                entries.push(MenuEntry::AddFocus);
                entries.push(MenuEntry::Gap);
                entries.push(MenuEntry::Archive);
                assert(entries@ =~= menu_of(self.categories@, self.owners@, self.can_start, self.suggested, key@).0);
                (entries, Vec::new())
            },
            Some(Row::AddFocus(_)) => (effect_entry(MenuEntry::AddFocus), Vec::new()),
            Some(Row::AddCategory) => (effect_entry(MenuEntry::AddCategory), Vec::new()),
            None => (Vec::new(), Vec::new()),
        }
    }
}

/// The one menu entry `entry`.
fn effect_entry(entry: MenuEntry) -> (entries: Vec<MenuEntry>)
    ensures
        entries@ == seq![entry],
{
    let mut entries: Vec<MenuEntry> = Vec::new();
    entries.push(entry);
    assert(entries@ =~= seq![entry]);
    entries
}

proof fn lemma_same_ids_same_category(a: Seq<Category>, b: Seq<Category>, id: Id, c: int)
    requires
        0 <= c,
        category_views(a).len() == category_views(b).len(),
        forall|k: int| 0 <= k < a.len() ==> #[trigger] category_views(a)[k].id == category_views(b)[k].id,
    ensures
        category_at(a, id, c) == category_at(b, id, c),
    decreases a.len() - c,
{
    if c < a.len() {
        assert(category_views(a)[c].id == category_views(b)[c].id);
        lemma_same_ids_same_category(a, b, id, c + 1);
    }
}

proof fn lemma_same_ids_same_index(a: Seq<Focus>, b: Seq<Focus>, id: Id, j: int)
    requires
        0 <= j,
        focus_views(a).len() == focus_views(b).len(),
        forall|k: int| 0 <= k < a.len() ==> #[trigger] focus_views(a)[k].id == focus_views(b)[k].id,
    ensures
        focus_index(a, id, j) == focus_index(b, id, j),
    decreases a.len() - j,
{
    if j < a.len() {
        assert(focus_views(a)[j].id == focus_views(b)[j].id);
        lemma_same_ids_same_index(a, b, id, j + 1);
    }
}

proof fn lemma_same_ids_same_focus(a: Seq<Category>, b: Seq<Category>, id: Id, c: int)
    requires
        0 <= c,
        category_views(a).len() == category_views(b).len(),
        forall|k: int|
            0 <= k < a.len() ==> #[trigger] category_views(a)[k].focuses.len() == category_views(b)[k].focuses.len(),
        forall|k: int, f: int|
            0 <= k < a.len() && 0 <= f < category_views(a)[k].focuses.len() ==> #[trigger] category_views(a)[k].focuses[f].id
                == category_views(b)[k].focuses[f].id,
    ensures
        focus_at(a, id, c) == focus_at(b, id, c),
    decreases a.len() - c,
{
    if c < a.len() {
        assert(category_views(a)[c].focuses.len() == category_views(b)[c].focuses.len());
        assert forall|k: int| 0 <= k < a[c].focuses@.len() implies #[trigger] focus_views(a[c].focuses@)[k].id == focus_views(
            b[c].focuses@,
        )[k].id by {
            assert(category_views(a)[c].focuses[k].id == category_views(b)[c].focuses[k].id);
        }
        lemma_same_ids_same_index(a[c].focuses@, b[c].focuses@, id, 0);
        lemma_same_ids_same_focus(a, b, id, c + 1);
    }
}

/// Whether the category or focus `row`, the first one with its identifier, is archived.
pub open spec fn is_archived(categories: Seq<Category>, row: Row) -> bool {
    match row {
        Row::Category(id) => match category_at(categories, id, 0) {
            Some(c) => categories[c].archived,
            None => false,
        },
        Row::Focus(id) => match focus_at(categories, id, 0) {
            Some((c, f)) => categories[c].focuses@[f].archived,
            None => false,
        },
        _ => false,
    }
}

/// An archived row comes back as it was: archiving a category or focus that is shown and then
/// bringing it back, as the toast that says it went offers, leaves the catalogue as it was.
pub proof fn law_an_archived_row_comes_back_as_it_was(
    before: Seq<Category>,
    archived_catalog: Seq<Category>,
    after: Seq<Category>,
    row: Row,
)
    requires
        !is_archived(before, row),
        row_changed(before, row, ChangeView::Archived(true)) == Some(category_views(archived_catalog)),
        row_changed(archived_catalog, row, ChangeView::Archived(false)) == Some(category_views(after)),
    ensures
        category_views(after) == category_views(before),
{
    let views = category_views(before);
    let middle = category_views(archived_catalog);
    assert(views.len() == before.len());
    assert(middle.len() == archived_catalog.len());
    match row {
        Row::Category(id) => {
            lemma_category_at_found(before, id, 0);
            let c = category_at(before, id, 0).unwrap();
            assert forall|k: int| 0 <= k < archived_catalog.len() implies #[trigger] category_views(archived_catalog)[k].id
                == category_views(before)[k].id by {
                assert(middle[k] == views.update(c, category_changed(views[c], ChangeView::Archived(true)))[k]);
            }
            lemma_same_ids_same_category(archived_catalog, before, id, 0);
            assert(category_views(after) =~= views);
        },
        Row::Focus(id) => {
            lemma_focus_at_found(before, id, 0);
            let (c, f) = focus_at(before, id, 0).unwrap();
            let changed = views.update(
                c,
                CategoryView { focuses: views[c].focuses.update(f, focus_changed(views[c].focuses[f], ChangeView::Archived(true))), ..views[c] },
            );
            assert(middle == changed);
            assert forall|k: int| 0 <= k < archived_catalog.len() implies #[trigger] category_views(archived_catalog)[k].focuses.len()
                == category_views(before)[k].focuses.len() by {
                assert(middle[k] == changed[k]);
            }
            assert forall|k: int, g: int|
                0 <= k < archived_catalog.len() && 0 <= g < category_views(archived_catalog)[k].focuses.len() implies #[trigger] category_views(
                archived_catalog,
            )[k].focuses[g].id == category_views(before)[k].focuses[g].id by {
                assert(middle[k] == changed[k]);
            }
            lemma_same_ids_same_focus(archived_catalog, before, id, 0);
            assert(views[c].focuses[f] == before[c].focuses@[f]@);
            assert(category_views(after)[c].focuses =~= views[c].focuses);
            assert(category_views(after) =~= views);
        },
        _ => {},
    }
}

/// Renaming never touches an identifier: after a new name is taken for a category or focus,
/// every category and every focus keeps the identifier it had, so the sessions recorded
/// against it stay its own.
pub proof fn law_renaming_keeps_every_identifier(categories: Seq<Category>, row: Row, name: Seq<char>)
    requires
        row_changed(categories, row, ChangeView::Name(name)) is Some,
    ensures
        ({
            let renamed = row_changed(categories, row, ChangeView::Name(name)).unwrap();
            let views = category_views(categories);
            &&& renamed.len() == views.len()
            &&& forall|k: int| 0 <= k < views.len() ==> #[trigger] renamed[k].id == views[k].id
            &&& forall|k: int| 0 <= k < views.len() ==> #[trigger] renamed[k].focuses.len() == views[k].focuses.len()
            &&& forall|k: int, f: int|
                0 <= k < views.len() && 0 <= f < views[k].focuses.len() ==> #[trigger] renamed[k].focuses[f].id
                    == views[k].focuses[f].id
        }),
{
    let views = category_views(categories);
    match row {
        Row::Category(id) => {
            lemma_category_at_found(categories, id, 0);
        },
        Row::Focus(id) => {
            lemma_focus_at_found(categories, id, 0);
        },
        _ => {},
    }
}

/// A focus moved under another category keeps its identifier, its name, its goal and whether it
/// is archived, so its history goes with it: it stands last under the category it went to.
pub proof fn law_a_moved_focus_keeps_its_identifier(v: TodayView, categories: Seq<Category>, focus: Id, target: Id)
    requires
        moved_to(v, categories, focus, target).request == Some(Request::Changed),
    ensures
        ({
            let after = moved_to(v, categories, focus, target).catalog;
            let t = category_at(categories, target, 0).unwrap();
            let (c, f) = focus_at(categories, focus, 0).unwrap();
            let was = category_views(categories)[c].focuses[f];
            let arrived = after[t].focuses.last();
            &&& after[t].id == target
            &&& arrived.id == focus
            &&& arrived.name == was.name
            &&& arrived.goal == was.goal
            &&& arrived.archived == was.archived
        }),
{
    lemma_focus_at_found(categories, focus, 0);
    let (holder, place) = focus_at(categories, focus, 0).unwrap();
    let from = categories[holder].id;
    lemma_category_at_found(categories, target, 0);
    lemma_category_at_found(categories, from, 0);
    let c = category_at(categories, from, 0).unwrap();
    lemma_focus_index_found(categories[c].focuses@, focus, 0);
    let t = category_at(categories, target, 0).unwrap();
    assert(c != t);
    lemma_focus_at_first(categories, focus, 0);
    assert(c <= holder) by {
        if holder < c {
            assert(categories[holder].id != from);
        }
    }
    if c < holder {
        assert(focus_index(categories[c].focuses@, focus, 0) is None);
    }
    assert(c == holder);
}

proof fn lemma_focus_at_first(categories: Seq<Category>, id: Id, k: int)
    requires
        0 <= k,
    ensures
        focus_at(categories, id, k) matches Some((h, _)) ==> forall|j: int|
            k <= j < h ==> #[trigger] focus_index(categories[j].focuses@, id, 0) is None,
    decreases categories.len() - k,
{
    if k < categories.len() && focus_index(categories[k].focuses@, id, 0) is None {
        lemma_focus_at_first(categories, id, k + 1);
    }
}

/// The first place `row` stands at among `rows`, if it stands among them.
pub open spec fn first_place(rows: Seq<Row>, row: Row) -> Option<int> {
    if exists|i: int| 0 <= i < rows.len() && rows[i] == row {
        Some(choose|i: int| 0 <= i < rows.len() && rows[i] == row && forall|j: int| 0 <= j < i ==> rows[j] != row)
    } else {
        None
    }
}

/// The places of the nearest rows before and after `row` among `rows` that have an order of their
/// own, `ordered` saying which do; add rows have none and are looked past. Nothing when `row` is
/// not among the rows. The orders themselves are numbers with a fraction, which the library does
/// not hold: a caller takes the order of each place found.
pub fn neighbour_places(rows: &[Row], ordered: &[bool], row: Row) -> (found: (Option<usize>, Option<usize>))
    requires
        rows@.len() == ordered@.len(),
    ensures
        match first_place(rows@, row) {
            None => found == (None::<usize>, None::<usize>),
            Some(at) => {
                &&& match found.0 {
                    Some(b) => b < at && ordered@[b as int] && forall|j: int| b < j < at ==> !ordered@[j],
                    None => forall|j: int| 0 <= j < at ==> !ordered@[j],
                }
                &&& match found.1 {
                    Some(a) => at < a < rows@.len() && ordered@[a as int] && forall|j: int| at < j < a ==> !ordered@[j],
                    None => forall|j: int| at < j < rows@.len() ==> !ordered@[j],
                }
            },
        },
{
    match place_of_row(rows, row) {
        None => (None, None),
        Some(at) => (nearest_ordered_before(ordered, at), nearest_ordered_after(ordered, at)),
    }
}

/// The first place `row` stands at among `rows`.
fn place_of_row(rows: &[Row], row: Row) -> (at: Option<usize>)
    ensures
        match at {
            Some(at) => at < rows@.len() && first_place(rows@, row) == Some(at as int),
            None => first_place(rows@, row) is None,
        },
{
    let mut k: usize = 0;
    while k < rows.len()
        invariant
            k <= rows@.len(),
            forall|j: int| 0 <= j < k ==> rows@[j] != row,
        decreases rows@.len() - k,
    {
        if rows[k] == row {
            proof {
                let c = choose|i: int| 0 <= i < rows@.len() && rows@[i] == row && forall|j: int| 0 <= j < i ==> rows@[j] != row;
                assert(0 <= k < rows@.len() && rows@[k as int] == row && forall|j: int| 0 <= j < k ==> rows@[j] != row);
                assert(c == k) by {
                    if c > k {
                        assert(rows@[k as int] != row);
                    }
                }
            }
            return Some(k);
        }
        k = k + 1;
    }
    None
}

/// The nearest place before `at` whose row has an order of its own.
fn nearest_ordered_before(ordered: &[bool], at: usize) -> (found: Option<usize>)
    requires
        at <= ordered@.len(),
    ensures
        match found {
            Some(b) => b < at && ordered@[b as int] && forall|j: int| b < j < at ==> !ordered@[j],
            None => forall|j: int| 0 <= j < at ==> !ordered@[j],
        },
{
    let mut k: usize = at;
    while k > 0
        invariant
            k <= at <= ordered@.len(),
            forall|j: int| k <= j < at ==> !ordered@[j],
        decreases k,
    {
        if ordered[k - 1] {
            return Some(k - 1);
        }
        k = k - 1;
    }
    None
}

/// The nearest place after `at` whose row has an order of its own.
fn nearest_ordered_after(ordered: &[bool], at: usize) -> (found: Option<usize>)
    requires
        at < ordered@.len(),
    ensures
        match found {
            Some(a) => at < a < ordered@.len() && ordered@[a as int] && forall|j: int| at < j < a ==> !ordered@[j],
            None => forall|j: int| at < j < ordered@.len() ==> !ordered@[j],
        },
{
    let n: usize = ordered.len();
    let mut m: usize = at + 1;
    while m < n
        invariant
            at < m <= ordered@.len(),
            n == ordered@.len(),
            forall|j: int| at < j < m ==> !ordered@[j],
        decreases ordered@.len() - m,
    {
        if ordered[m] {
            return Some(m);
        }
        m = m + 1;
    }
    None
}

/// Choosing a period in the goal field: choice `i` of the field's list, day, week, month, is
/// that period, whatever the field held before; any other choice, or no field open, changes
/// nothing. Nothing else on the screen or in the catalogue changes and nothing is asked.
pub proof fn law_a_goal_period_choice_is_day_week_or_month(v: TodayView, categories: Seq<Category>, index: usize, fresh: Id)
    ensures
        ({
            let step = today_updated(v, categories, Msg::GoalPeriod(index), fresh);
            let choices = seq![Period::Day, Period::Week, Period::Month];
            &&& step.catalog == category_views(categories)
            &&& step.effects.len() == 0
            &&& step.request is None
            &&& match v.goal {
                Some(edit) => if index < 3 {
                    step.screen == TodayView { goal: Some(GoalEdit { period: choices[index as int], ..edit }), ..v }
                } else {
                    step.screen == v
                },
                None => step.screen == v,
            }
        }),
{
}

} // verus!
