//! The numbers the screens read out: how long ago something was, and how far each goal has
//! come. The words around them are the active language's; the numbers and the unit they are in
//! are decided here.

use vstd::prelude::*;

use crate::calendar::on_calendar;
use crate::id::Id;
use crate::prefs::{Prefs, TimeOfDay, Weekday};
use crate::session::Session;
use crate::stats::{countable, goal_progress, goal_span, goal_work, held_add, slot_of};
use crate::span::work_of;
use crate::text::{decimal, push_u64, string_of};
use crate::tree::{Category, Focus, Goal, Tree};

verus! {

/// The unit "how long ago" is said in.
#[derive(Debug, Clone, Copy, PartialEq, Eq, Structural)]
pub enum AgoUnit {
    Seconds,
    Minutes,
    Hours,
    Days,
}

/// `value` held to a `u32`.
pub open spec fn capped_u32(value: int) -> u32 {
    if value > u32::MAX {
        u32::MAX
    } else {
        value as u32
    }
}

/// `seconds` as "how long ago", in the largest unit that fits: seconds below a minute, minutes
/// below an hour, hours below a day, else days, each count whole and held to a `u32`.
pub open spec fn ago_of(seconds: u64) -> (AgoUnit, u32) {
    if seconds < 60 {
        (AgoUnit::Seconds, capped_u32(seconds as int))
    } else if seconds < 3_600 {
        (AgoUnit::Minutes, capped_u32(seconds as int / 60))
    } else if seconds < 86_400 {
        (AgoUnit::Hours, capped_u32(seconds as int / 3_600))
    } else {
        (AgoUnit::Days, capped_u32(seconds as int / 86_400))
    }
}

/// `value` held to a `u32`.
fn cap_u32(value: u64) -> (capped: u32)
    ensures
        capped == capped_u32(value as int),
{
    if value > u32::MAX as u64 {
        u32::MAX
    } else {
        value as u32
    }
}

/// `seconds` as "how long ago": the unit and the count in it.
pub fn ago(seconds: u64) -> (said: (AgoUnit, u32))
    ensures
        said == ago_of(seconds),
{
    if seconds < 60 {
        (AgoUnit::Seconds, cap_u32(seconds))
    } else if seconds < 3_600 {
        (AgoUnit::Minutes, cap_u32(seconds / 60))
    } else if seconds < 86_400 {
        (AgoUnit::Hours, cap_u32(seconds / 3_600))
    } else {
        (AgoUnit::Days, cap_u32(seconds / 86_400))
    }
}

/// `seconds` in tenths of an hour, to the nearest tenth.
pub open spec fn nearest_tenths(seconds: int) -> int {
    (seconds * 10 + 1_800) / 3_600
}

/// `seconds` as hours to the nearest tenth: whole when they are, else with one decimal.
pub open spec fn hours_words(seconds: int) -> Seq<char> {
    let tenths = nearest_tenths(seconds);
    if tenths % 10 == 0 {
        decimal((tenths / 10) as nat)
    } else {
        decimal((tenths / 10) as nat) + seq!['.'] + decimal((tenths % 10) as nat)
    }
}

/// `seconds` as hours to the nearest tenth, whole when they are, else with one decimal.
pub fn hours_text(seconds: u64) -> (text: String)
    requires
        seconds <= (u64::MAX - 1_800) / 10,
    ensures
        text@ == hours_words(seconds as int),
{
    let tenths = (seconds * 10 + 1_800) / 3_600;
    let mut out: Vec<char> = Vec::new();
    push_u64(&mut out, tenths / 10);
    if tenths % 10 != 0 {
        out.push('.');
        push_u64(&mut out, tenths % 10);
    }
    proof {
        if tenths % 10 == 0 {
            assert(out@ =~= decimal((tenths / 10) as nat));
        } else {
            assert(out@ =~= decimal((tenths / 10) as nat) + seq!['.'] + decimal((tenths % 10) as nat));
        }
    }
    string_of(&out)
}

/// How far one goal of the catalogue has come, ready to draw.
#[derive(Debug, Clone, PartialEq, Eq)]
pub struct GoalRow {
    /// The category or focus the goal belongs to.
    pub id: Id,
    /// Its name.
    pub name: String,
    /// Seconds of work in the goal's window.
    pub done: u64,
    /// Seconds the goal asks for.
    pub amount: u64,
}

/// The numbers beside a goal's meter: what is done and what is asked, in hours to the nearest
/// tenth when the goal is at least an hour, else in whole minutes; `true` for hours.
pub open spec fn value_words(done: u64, amount: u64) -> (Seq<char>, Seq<char>, bool) {
    if amount >= 3_600 {
        (hours_words(done as int), hours_words(amount as int), true)
    } else {
        (decimal((done / 60) as nat), decimal((amount / 60) as nat), false)
    }
}

impl GoalRow {
    /// Whether the goal is reached.
    pub fn reached(&self) -> (reached: bool)
        ensures
            reached == (self.done >= self.amount),
    {
        self.done >= self.amount
    }

    /// The numbers beside the meter: what is done and what is asked, in hours when the goal is
    /// at least one, else in minutes, and whether they are hours.
    pub fn value_parts(&self) -> (parts: (String, String, bool))
        requires
            self.done <= (u64::MAX - 1_800) / 10,
            self.amount <= (u64::MAX - 1_800) / 10,
        ensures
            (parts.0@, parts.1@, parts.2) == value_words(self.done, self.amount),
    {
        if self.amount >= 3_600 {
            (hours_text(self.done), hours_text(self.amount), true)
        } else {
            let mut done: Vec<char> = Vec::new();
            push_u64(&mut done, self.done / 60);
            let mut amount: Vec<char> = Vec::new();
            push_u64(&mut amount, self.amount / 60);
            assert(done@ =~= decimal((self.done / 60) as nat));
            assert(amount@ =~= decimal((self.amount / 60) as nat));
            (string_of(&done), string_of(&amount), false)
        }
    }
}

/// A goal row as values: whose goal, its name, the seconds done and the seconds asked for.
pub open spec fn row_values(row: GoalRow) -> (Id, Seq<char>, u64, u64) {
    (row.id, row.name@, row.done, row.amount)
}

/// The row of `goal`, which belongs to `id` named `name` and is measured over `focuses`: the work
/// under them in the goal's window around the day `today`, plus `extra`, work not recorded yet,
/// when its focus is one of them.
pub open spec fn measured(
    goal: Goal,
    id: Id,
    focuses: Seq<Id>,
    name: Seq<char>,
    sessions: Seq<Session>,
    today: i64,
    week_first: Weekday,
    rollover: TimeOfDay,
    extra: Option<(Id, u64)>,
) -> (Id, Seq<char>, u64, u64) {
    let recorded = goal_work(sessions, sessions.len() as int, goal_span(goal.period, today, week_first), rollover, focuses);
    let done = match extra {
        Some((focus, seconds)) => if focuses.contains(focus) {
            held_add(recorded, seconds as int)
        } else {
            recorded
        },
        None => recorded,
    };
    (id, name, done, goal.amount as u64)
}

/// The identifiers of `focuses`.
pub open spec fn focus_ids(focuses: Seq<Focus>) -> Seq<Id> {
    focuses.map_values(|focus: Focus| focus.id)
}

/// The rows of the goals of the first `n` of `focuses` that are not archived.
pub open spec fn focus_rows(
    focuses: Seq<Focus>,
    n: int,
    sessions: Seq<Session>,
    today: i64,
    week_first: Weekday,
    rollover: TimeOfDay,
    extra: Option<(Id, u64)>,
) -> Seq<(Id, Seq<char>, u64, u64)>
    decreases n,
{
    if n <= 0 {
        Seq::empty()
    } else {
        let before = focus_rows(focuses, n - 1, sessions, today, week_first, rollover, extra);
        let focus = focuses[n - 1];
        if !focus.archived && focus.goal is Some {
            before.push(
                measured(focus.goal.unwrap(), focus.id, seq![focus.id], focus.name@, sessions, today, week_first, rollover, extra),
            )
        } else {
            before
        }
    }
}

/// The rows of a category: its own goal first, measured over all of its focuses, archived ones
/// included, then the goals of its focuses that are not archived.
pub open spec fn category_rows(
    category: Category,
    sessions: Seq<Session>,
    today: i64,
    week_first: Weekday,
    rollover: TimeOfDay,
    extra: Option<(Id, u64)>,
) -> Seq<(Id, Seq<char>, u64, u64)> {
    let own = match category.goal {
        Some(goal) => seq![
            measured(goal, category.id, focus_ids(category.focuses@), category.name@, sessions, today, week_first, rollover, extra),
        ],
        None => Seq::empty(),
    };
    own + focus_rows(category.focuses@, category.focuses@.len() as int, sessions, today, week_first, rollover, extra)
}

/// The rows of the goals of the first `n` of `categories` that are not archived, in their order.
pub open spec fn goal_rows_of(
    categories: Seq<Category>,
    n: int,
    sessions: Seq<Session>,
    today: i64,
    week_first: Weekday,
    rollover: TimeOfDay,
    extra: Option<(Id, u64)>,
) -> Seq<(Id, Seq<char>, u64, u64)>
    decreases n,
{
    if n <= 0 {
        Seq::empty()
    } else {
        let before = goal_rows_of(categories, n - 1, sessions, today, week_first, rollover, extra);
        if categories[n - 1].archived {
            before
        } else {
            before + category_rows(categories[n - 1], sessions, today, week_first, rollover, extra)
        }
    }
}

/// The row of `goal`, which belongs to `id` named `name`, measured over `focuses`.
fn measure(
    goal: Goal,
    id: Id,
    focuses: &[Id],
    name: &String,
    sessions: &[Session],
    today: i64,
    week_first: Weekday,
    rollover: TimeOfDay,
    extra: Option<(Id, u64)>,
) -> (row: GoalRow)
    requires
        on_calendar(today as int),
        countable(sessions@),
    ensures
        row_values(row) == measured(goal, id, focuses@, name@, sessions@, today, week_first, rollover, extra),
{
    let (recorded, amount) = goal_progress(goal, focuses, sessions, today, week_first, rollover);
    let done = match extra {
        Some((focus, seconds)) => {
            let mut found = false;
            let mut i: usize = 0;
            while i < focuses.len()
                invariant
                    i <= focuses@.len(),
                    found == (exists|j: int| 0 <= j < i && focuses@[j] == focus),
                decreases focuses@.len() - i,
            {
                if focuses[i] == focus {
                    found = true;
                }
                i = i + 1;
            }
            if found {
                recorded.saturating_add(seconds)
            } else {
                recorded
            }
        },
        None => recorded,
    };
    GoalRow { id, name: name.clone(), done, amount }
}

/// Every goal of the shown rows of `catalog`, taken in the order `catalog` holds its categories
/// and each category's focuses: a category's goal first, measured over all of its focuses,
/// then the goals of its focuses, each measured over `sessions` around the day `today` with
/// weeks starting on `week_first` and days turning at `rollover`. Archived categories and focuses
/// are not shown. `extra` is work not recorded yet, the running counter's, counted for the goals
/// of its focus.
pub fn goal_rows_given(
    catalog: &Tree,
    sessions: &[Session],
    today: i64,
    week_first: Weekday,
    rollover: TimeOfDay,
    extra: Option<(Id, u64)>,
) -> (rows: Vec<GoalRow>)
    requires
        on_calendar(today as int),
        countable(sessions@),
    ensures
        rows@.map_values(|row: GoalRow| row_values(row)) == goal_rows_of(
            catalog.categories@,
            catalog.categories@.len() as int,
            sessions@,
            today,
            week_first,
            rollover,
            extra,
        ),
{
    let categories = &catalog.categories;
    let mut rows: Vec<GoalRow> = Vec::new();
    let mut k: usize = 0;
    while k < categories.len()
        invariant
            k <= categories@.len(),
            categories@ == catalog.categories@,
            on_calendar(today as int),
            countable(sessions@),
            rows@.map_values(|row: GoalRow| row_values(row)) == goal_rows_of(
                categories@,
                k as int,
                sessions@,
                today,
                week_first,
                rollover,
                extra,
            ),
        decreases categories@.len() - k,
    {
        let category = &categories[k];
        if !category.archived {
            let ghost start = rows@.map_values(|row: GoalRow| row_values(row));
            match category.goal {
                Some(goal) => {
                    let mut ids: Vec<Id> = Vec::new();
                    let mut j: usize = 0;
                    while j < category.focuses.len()
                        invariant
                            j <= category.focuses@.len(),
                            ids@ == focus_ids(category.focuses@.take(j as int)),
                        decreases category.focuses@.len() - j,
                    {
                        ids.push(category.focuses[j].id);
                        j = j + 1;
                        assert(ids@ =~= focus_ids(category.focuses@.take(j as int)));
                    }
                    assert(category.focuses@.take(category.focuses@.len() as int) =~= category.focuses@);
                    let row = measure(goal, category.id, &ids, &category.name, sessions, today, week_first, rollover, extra);
                    rows.push(row);
                },
                None => {},
            }
            let ghost own = rows@.map_values(|row: GoalRow| row_values(row));
            assert(own =~= start + match category.goal {
                Some(goal) => seq![
                    measured(goal, category.id, focus_ids(category.focuses@), category.name@, sessions@, today, week_first, rollover, extra),
                ],
                None => Seq::<(Id, Seq<char>, u64, u64)>::empty(),
            });
            let mut j: usize = 0;
            while j < category.focuses.len()
                invariant
                    j <= category.focuses@.len(),
                    on_calendar(today as int),
                    countable(sessions@),
                    rows@.map_values(|row: GoalRow| row_values(row)) == own + focus_rows(
                        category.focuses@,
                        j as int,
                        sessions@,
                        today,
                        week_first,
                        rollover,
                        extra,
                    ),
                decreases category.focuses@.len() - j,
            {
                let focus = &category.focuses[j];
                if !focus.archived {
                    match focus.goal {
                        Some(goal) => {
                            let ids: Vec<Id> = vec![focus.id];
                            assert(ids@ =~= seq![focus.id]);
                            let row = measure(goal, focus.id, &ids, &focus.name, sessions, today, week_first, rollover, extra);
                            let ghost before = rows@.map_values(|row: GoalRow| row_values(row));
                            rows.push(row);
                            assert(rows@.map_values(|row: GoalRow| row_values(row)) =~= before.push(row_values(row)));
                        },
                        None => {},
                    }
                }
                j = j + 1;
            }
            assert(rows@.map_values(|row: GoalRow| row_values(row)) =~= start + category_rows(
                *category,
                sessions@,
                today,
                week_first,
                rollover,
                extra,
            ));
        }
        k = k + 1;
    }
    rows
}

/// Every goal of the shown rows of `catalog`, as [`goal_rows_given`] measures them, with weeks
/// starting on the day `prefs` chooses, or on the active language's first day of the week when
/// it chooses none, and days turning at its rollover.
pub fn goal_rows(
    catalog: &Tree,
    sessions: &[Session],
    today: i64,
    prefs: &Prefs,
    extra: Option<(Id, u64)>,
) -> (rows: Vec<GoalRow>)
    requires
        on_calendar(today as int),
        countable(sessions@),
    ensures
        exists|week_first: Weekday|
            {
                &&& prefs.week_start is Some ==> week_first == prefs.week_start.unwrap()
                &&& rows@.map_values(|row: GoalRow| row_values(row)) == goal_rows_of(
                    catalog.categories@,
                    catalog.categories@.len() as int,
                    sessions@,
                    today,
                    week_first,
                    prefs.rollover,
                    extra,
                )
            },
{
    let week_first = prefs.week_starts_on();
    goal_rows_given(catalog, sessions, today, week_first, prefs.rollover, extra)
}

/// Work not recorded yet counts toward a goal only through the goal's own focuses: an extra on a
/// focus the row is not measured over leaves the row as it is without any extra, and one on its
/// focus raises what is done by exactly its seconds, held to a `u64`.
pub proof fn law_unrecorded_work_counts_only_for_its_own_focus(
    goal: Goal,
    id: Id,
    focuses: Seq<Id>,
    name: Seq<char>,
    sessions: Seq<Session>,
    today: i64,
    week_first: Weekday,
    rollover: TimeOfDay,
    focus: Id,
    seconds: u64,
)
    ensures
        !focuses.contains(focus) ==> measured(goal, id, focuses, name, sessions, today, week_first, rollover, Some((focus, seconds)))
            == measured(goal, id, focuses, name, sessions, today, week_first, rollover, None),
        focuses.contains(focus) ==> measured(goal, id, focuses, name, sessions, today, week_first, rollover, Some((focus, seconds))).2
            == if measured(goal, id, focuses, name, sessions, today, week_first, rollover, None).2 + seconds > u64::MAX {
            u64::MAX as int
        } else {
            measured(goal, id, focuses, name, sessions, today, week_first, rollover, None).2 + seconds
        },
        measured(goal, id, focuses, name, sessions, today, week_first, rollover, Some((focus, seconds))).2 >= measured(
            goal,
            id,
            focuses,
            name,
            sessions,
            today,
            week_first,
            rollover,
            None,
        ).2,
{
}

/// Counting the goal work of a sequence and of a longer one that starts with it agrees over the
/// shared start.
proof fn lemma_goal_work_prefix(a: Seq<Session>, b: Seq<Session>, n: int, range: crate::stats::Range, rollover: TimeOfDay, focuses: Seq<Id>)
    requires
        0 <= n <= a.len(),
        n <= b.len(),
        forall|k: int| 0 <= k < n ==> a[k] == b[k],
    ensures
        goal_work(a, n, range, rollover, focuses) == goal_work(b, n, range, rollover, focuses),
    decreases n,
{
    if n > 0 {
        lemma_goal_work_prefix(a, b, n - 1, range, rollover, focuses);
    }
}

/// A recorded session counts toward a goal row exactly when its focus is one of the row's and it
/// falls in the goal's window: then it raises what is done by its work, held to a `u64`;
/// otherwise the row stays as it was.
pub proof fn law_a_session_counts_only_for_its_own_goal(
    goal: Goal,
    id: Id,
    focuses: Seq<Id>,
    name: Seq<char>,
    sessions: Seq<Session>,
    session: Session,
    today: i64,
    week_first: Weekday,
    rollover: TimeOfDay,
)
    ensures
        ({
            let window = goal_span(goal.period, today, week_first);
            let before = measured(goal, id, focuses, name, sessions, today, week_first, rollover, None);
            let after = measured(goal, id, focuses, name, sessions.push(session), today, week_first, rollover, None);
            &&& !(focuses.contains(session.focus) && slot_of(window, session, rollover) is Some) ==> after == before
            &&& (focuses.contains(session.focus) && slot_of(window, session, rollover) is Some) ==> after.2 == if before.2
                + work_of(session.spans@) > u64::MAX {
                u64::MAX as int
            } else {
                before.2 + work_of(session.spans@)
            }
        }),
{
    let window = goal_span(goal.period, today, week_first);
    let longer = sessions.push(session);
    let n = sessions.len() as int;
    crate::stats::lemma_work_of_nonnegative(session.spans@);
    lemma_goal_work_prefix(sessions, longer, n, window, rollover, focuses);
    assert(longer[n] == session);
    assert(longer.len() == n + 1);
    let prior = goal_work(longer, n, window, rollover, focuses);
    assert(goal_work(longer, n + 1, window, rollover, focuses) == if slot_of(window, longer[n], rollover) is Some
        && focuses.contains(longer[n].focus) {
        held_add(prior, work_of(longer[n].spans@))
    } else {
        prior
    });
}

} // verus!
