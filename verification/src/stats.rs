//! What the records add up to over a stretch of days: by the hour, by the day, by category, by
//! focus, and against the stretch before.
//!
//! Every function here is a pure calculation over sessions. A session belongs to the day it
//! began, a day running 24 hours from the rollover time, and every session counts whether or not
//! its focus is still in the lists: archiving takes a focus out of the lists, not out of the
//! past. Days are numbered from 1970-01-01 on the local calendar.

use vstd::prelude::*;

use crate::arith::clamp_i64;
use crate::calendar::{days_in_month, first_of_month, month_first, month_length, on_calendar, week_start, week_start_of};
use crate::id::Id;
use crate::prefs::{TimeOfDay, Weekday, seconds_of};
use crate::session::Session;
use crate::store::running::Running;
use crate::span::{Span, SpanKind, work_of};
use crate::tree::{Category, CategoryView, Focus, Goal, Period, Tree, category_views};
use crate::today::{ChangeView, Row, category_changed, focus_changed, lemma_category_at_found, lemma_focus_at_found, row_changed};

verus! {

/// Seconds in a day.
pub const DAY: i64 = 86_400;

/// The sum of the first `n` of `days`, held to a `u64`.
pub open spec fn saturating_sum(days: Seq<u64>, n: int) -> u64
    decreases n,
{
    if n <= 0 {
        0
    } else {
        let before = saturating_sum(days, n - 1);
        if before + days[n - 1] > u64::MAX {
            u64::MAX
        } else {
            (before + days[n - 1]) as u64
        }
    }
}

/// The sum of the first `n` of `days`, however large.
pub open spec fn plain_sum(days: Seq<u64>, n: int) -> int
    decreases n,
{
    if n <= 0 {
        0
    } else {
        plain_sum(days, n - 1) + days[n - 1]
    }
}

/// Adding up held to a `u64` gives the least of the largest `u64` and the sum: the total of a
/// category's days is its true total until that no longer fits, and then the largest `u64`.
pub proof fn law_a_held_sum_is_the_sum_up_to_the_largest_u64(days: Seq<u64>, n: int)
    ensures
        saturating_sum(days, n) == if plain_sum(days, n) > u64::MAX { u64::MAX as int } else { plain_sum(days, n) },
    decreases n,
{
    if n > 0 {
        law_a_held_sum_is_the_sum_up_to_the_largest_u64(days, n - 1);
    }
}

/// The work of one category over a stretch of days.
#[derive(Debug, Clone, PartialEq, Eq)]
pub struct CategoryDays {
    /// The category, or `None` for sessions whose focus is in no category any more.
    pub category: Option<Id>,
    /// Seconds of work on each day of the stretch.
    pub days: Vec<u64>,
}

impl CategoryDays {
    /// Seconds of work over the whole stretch, held to a `u64`.
    pub fn total(&self) -> (sum: u64)
        ensures
            sum == saturating_sum(self.days@, self.days@.len() as int),
    {
        let mut sum: u64 = 0;
        let mut i: usize = 0;
        while i < self.days.len()
            invariant
                i <= self.days@.len(),
                sum == saturating_sum(self.days@, i as int),
            decreases self.days@.len() - i,
        {
            sum = sum.saturating_add(self.days[i]);
            i = i + 1;
        }
        sum
    }
}

/// How `this` stands against `previous`: positive for more, negative for less, zero for the same.
/// Each is held to an `i64` first.
pub fn compare(this: u64, previous: u64) -> (difference: i64)
    ensures
        difference == (if this > i64::MAX { i64::MAX as int } else { this as int }) - (if previous > i64::MAX {
            i64::MAX as int
        } else {
            previous as int
        }),
{
    let this: i64 = if this > i64::MAX as u64 {
        i64::MAX
    } else {
        this as i64
    };
    let previous: i64 = if previous > i64::MAX as u64 {
        i64::MAX
    } else {
        previous as i64
    };
    this - previous
}

/// Where a block of a day strip begins and ends, beyond the plain case of a block that lies
/// wholly inside its day.
#[derive(Debug, Clone, Copy, PartialEq, Eq, Structural)]
pub enum Edge {
    /// The block begins and ends inside the day.
    Whole,
    /// The block runs past the end of the day: the session went on into the next one, and the
    /// strip of that day carries its rest as a `Continued` block.
    PastEnd,
    /// The block carries on a session that began the day before.
    Continued,
    /// The block is the counter still running: it ends where the count has reached so far.
    Running,
}

/// One block of a day strip: a stretch of work under one focus, placed in seconds from the
/// start of the day. Breaks, sleep and idle time are not blocks; they are the holes between
/// them, and so is time not recorded.
#[derive(Debug, Clone, Copy, PartialEq, Eq, Structural)]
pub struct Block {
    /// Seconds from the start of the day to the start of the block.
    pub from: u32,
    /// How long the block lasts inside the day, in seconds; a block that runs past the end of
    /// the day is cut there.
    pub seconds: u32,
    /// The focus the work was under.
    pub focus: Id,
    /// How the block sits in the day.
    pub edge: Edge,
}

/// A session or the running counter, as far as a day strip is concerned.
struct Stretch<'a> {
    /// The focus it was under.
    focus: Id,
    /// When it began, in seconds since the Unix epoch.
    started: i64,
    /// Minutes the local time was ahead of UTC when it began.
    offset_minutes: i16,
    /// What happened during it, in order.
    spans: &'a [Span],
    /// Whether the last span is still open, so its block is the counter's.
    running: bool,
}

/// The local second a stretch began at.
pub open spec fn local_start(started: i64, offset_minutes: i16) -> int {
    clamp_i64(started + offset_minutes * 60)
}

/// The block span `i` of a stretch puts in the day that starts at `day_start`, if it puts one.
pub open spec fn block_of(
    focus: Id,
    start: int,
    spans: Seq<Span>,
    running: bool,
    i: int,
    day_start: i64,
    continued: bool,
) -> Option<Block> {
    let span = spans[i];
    let begin = clamp_i64(start + span.offset);
    let end = clamp_i64(begin + span.seconds);
    let day_end = clamp_i64(day_start + DAY);
    if span.kind != SpanKind::Work || end <= day_start || begin >= day_end {
        None
    } else {
        let low = if begin >= day_start { begin } else { day_start as int };
        let high = if end <= day_end { end } else { day_end };
        Some(Block {
            from: (low - day_start) as u32,
            seconds: (high - low) as u32,
            focus,
            edge: if continued {
                Edge::Continued
            } else if end > day_end {
                Edge::PastEnd
            } else if running && i == (if spans.len() > 0 { spans.len() - 1 } else { 0 }) {
                Edge::Running
            } else {
                Edge::Whole
            },
        })
    }
}

/// The blocks the first `n` spans of a stretch put in the day that starts at `day_start`.
pub open spec fn blocks_upto(
    focus: Id,
    start: int,
    spans: Seq<Span>,
    running: bool,
    n: int,
    day_start: i64,
    continued: bool,
) -> Seq<Block>
    decreases n,
{
    if n <= 0 {
        Seq::empty()
    } else {
        let before = blocks_upto(focus, start, spans, running, n - 1, day_start, continued);
        match block_of(focus, start, spans, running, n - 1, day_start, continued) {
            Some(block) => before.push(block),
            None => before,
        }
    }
}

/// Adds the work spans of `stretch` that fall inside the day starting at `day_start` (local
/// seconds) to `blocks`, cut to the day. `continued` marks every block as carrying on from the
/// day before.
fn place(blocks: &mut Vec<Block>, stretch: &Stretch, day_start: i64, continued: bool)
    ensures
        final(blocks)@ == old(blocks)@ + blocks_upto(
            stretch.focus,
            local_start(stretch.started, stretch.offset_minutes),
            stretch.spans@,
            stretch.running,
            stretch.spans@.len() as int,
            day_start,
            continued,
        ),
{
    let start = crate::arith::add_i64(stretch.started, stretch.offset_minutes as i64 * 60);
    let day_end = crate::arith::add_i64(day_start, DAY);
    let last: usize = if stretch.spans.len() > 0 {
        stretch.spans.len() - 1
    } else {
        0
    };
    let ghost before = blocks@;
    let mut i: usize = 0;
    while i < stretch.spans.len()
        invariant
            i <= stretch.spans@.len(),
            start == local_start(stretch.started, stretch.offset_minutes),
            day_end == clamp_i64(day_start + DAY),
            last == (if stretch.spans@.len() > 0 { stretch.spans@.len() - 1 } else { 0 }),
            blocks@ == before + blocks_upto(
                stretch.focus,
                start as int,
                stretch.spans@,
                stretch.running,
                i as int,
                day_start,
                continued,
            ),
        decreases stretch.spans@.len() - i,
    {
        let span = stretch.spans[i];
        let begin = crate::arith::add_i64(start, span.offset as i64);
        let end = crate::arith::add_i64(begin, span.seconds as i64);
        if span.kind == SpanKind::Work && !(end <= day_start || begin >= day_end) {
            let low = if begin >= day_start {
                begin
            } else {
                day_start
            };
            let high = if end <= day_end {
                end
            } else {
                day_end
            };
            let from = (low as i128 - day_start as i128) as u32;
            let seconds = (high as i128 - low as i128) as u32;
            let edge = if continued {
                Edge::Continued
            } else if end > day_end {
                Edge::PastEnd
            } else if stretch.running && i == last {
                Edge::Running
            } else {
                Edge::Whole
            };
            blocks.push(Block { from, seconds, focus: stretch.focus, edge });
        }
        i = i + 1;
    }
}

/// Every block of a day strip lies inside its day: it starts in the day and is cut at its end.
pub proof fn law_a_block_lies_inside_its_day(
    focus: Id,
    start: int,
    spans: Seq<Span>,
    running: bool,
    n: int,
    day_start: i64,
    continued: bool,
)
    requires
        0 <= n <= spans.len(),
    ensures
        forall|k: int|
            0 <= k < blocks_upto(focus, start, spans, running, n, day_start, continued).len() ==> {
                let b = #[trigger] blocks_upto(focus, start, spans, running, n, day_start, continued)[k];
                b.from + b.seconds <= DAY && b.focus == focus
            },
    decreases n,
{
    if n > 0 {
        law_a_block_lies_inside_its_day(focus, start, spans, running, n - 1, day_start, continued);
    }
}

/// A stretch of whole days: `days` days from the day `from` on.
#[derive(Debug, Clone, Copy, PartialEq, Eq, Structural)]
pub struct Range {
    /// The first day.
    pub from: i64,
    /// How many days, at least one.
    pub days: usize,
}

/// Where the day `day` sits in `range`, or `None` outside it.
pub open spec fn index_in(range: Range, day: int) -> Option<int> {
    let offset = day - range.from;
    if i64::MIN <= offset <= i64::MAX && 0 <= offset < range.days {
        Some(offset)
    } else {
        None
    }
}

impl Range {
    /// The stretch of `days` days starting on `from`; at least one day.
    pub fn new(from: i64, days: usize) -> (range: Range)
        ensures
            range == (Range { from, days: if days == 0 { 1 } else { days } }),
    {
        Range { from, days: if days == 0 { 1 } else { days } }
    }

    /// The single day `day`.
    pub fn day(day: i64) -> (range: Range)
        ensures
            range == (Range { from: day, days: 1 }),
    {
        Range::new(day, 1)
    }

    /// The stretch of the same length ending the day before this one starts.
    pub fn previous(self) -> (range: Range)
        ensures
            range == (Range {
                from: clamp_i64(self.from - (if self.days > i64::MAX { i64::MAX as int } else { self.days as int })) as i64,
                days: if self.days == 0 { 1 } else { self.days },
            }),
    {
        let days: i64 = if self.days as u128 > i64::MAX as u128 {
            i64::MAX
        } else {
            self.days as i64
        };
        Range::new(crate::arith::sub_i64(self.from, days), self.days)
    }

    /// The day after the last one.
    pub fn end(self) -> (day: i64)
        ensures
            day == clamp_i64(self.from + (if self.days > i64::MAX { i64::MAX as int } else { self.days as int })),
    {
        let days: i64 = if self.days as u128 > i64::MAX as u128 {
            i64::MAX
        } else {
            self.days as i64
        };
        crate::arith::add_i64(self.from, days)
    }

    /// Where `day` sits in the stretch, or `None` outside it.
    pub fn index_of(self, day: i64) -> (index: Option<usize>)
        ensures
            match index_in(self, day as int) {
                Some(i) => index == Some(i as usize),
                None => index is None,
            },
    {
        let offset: i128 = day as i128 - self.from as i128;
        if offset < i64::MIN as i128 || offset > i64::MAX as i128 || offset < 0 {
            None
        } else if offset as u128 >= self.days as u128 {
            None
        } else {
            Some(offset as usize)
        }
    }
}

/// The day a moment counts under: the local day it began, a day running 24 hours from the
/// rollover time, so a moment before the rollover counts under the day before.
pub open spec fn counted_day(started: i64, offset_minutes: i16, rollover: TimeOfDay) -> int {
    (local_start(started, offset_minutes) - seconds_of(rollover)) / (DAY as int)
}

/// The day the moment `started`, lived `offset_minutes` ahead of UTC, counts under when a day
/// turns at `rollover`.
pub fn day_at(started: i64, offset_minutes: i16, rollover: TimeOfDay) -> (day: i64)
    ensures
        day == counted_day(started, offset_minutes, rollover),
{
    let local = crate::arith::add_i64(started, offset_minutes as i64 * 60);
    let shifted: i128 = local as i128 - rollover.seconds_since_midnight() as i128;
    proof {
        assert(shifted / 86_400 <= i64::MAX && shifted / 86_400 >= i64::MIN) by (nonlinear_arith)
            requires
                -0x8000_0000_0000_0000 - 1_000_000 <= shifted <= 0x7fff_ffff_ffff_ffff,
        ;
    }
    match shifted.checked_div_euclid(86_400i128) {
        Some(day) => day as i64,
        None => 0,
    }
}

/// The place in `range` of the day `session` counts under.
pub open spec fn slot_of(range: Range, session: Session, rollover: TimeOfDay) -> Option<int> {
    index_in(range, counted_day(session.started, session.offset_minutes, rollover))
}

/// Whether the work of every session fits a `u64`, as counting it needs.
pub open spec fn countable(sessions: Seq<Session>) -> bool {
    forall|k: int| 0 <= k < sessions.len() ==> #[trigger] work_of(sessions[k].spans@) <= u64::MAX
}

/// `a + b`, held to a `u64`.
pub open spec fn held_add(a: u64, b: int) -> u64 {
    if a + b > u64::MAX {
        u64::MAX
    } else {
        (a + b) as u64
    }
}

/// The work of the first `n` sessions that count on the day at place `i` of `range`, held to a
/// `u64`.
pub open spec fn work_on(sessions: Seq<Session>, n: int, range: Range, rollover: TimeOfDay, i: int) -> u64
    decreases n,
{
    if n <= 0 {
        0
    } else {
        let before = work_on(sessions, n - 1, range, rollover, i);
        if slot_of(range, sessions[n - 1], rollover) == Some(i) {
            held_add(before, work_of(sessions[n - 1].spans@))
        } else {
            before
        }
    }
}

/// The work of each day of `range`, in order.
pub open spec fn daily_of(sessions: Seq<Session>, range: Range, rollover: TimeOfDay) -> Seq<u64> {
    Seq::new(range.days as nat, |i: int| work_on(sessions, sessions.len() as int, range, rollover, i))
}

/// Seconds of work on each day of `range`, in order: each session adds its work to the day it
/// counts under, and sessions outside the range add nothing.
pub fn daily(sessions: &[Session], range: Range, rollover: TimeOfDay) -> (days: Vec<u64>)
    requires
        countable(sessions@),
    ensures
        days@ == daily_of(sessions@, range, rollover),
{
    let mut days: Vec<u64> = vec![0u64; range.days];
    let mut k: usize = 0;
    while k < sessions.len()
        invariant
            k <= sessions@.len(),
            countable(sessions@),
            days@.len() == range.days,
            forall|i: int| 0 <= i < range.days ==> #[trigger] days@[i] == work_on(sessions@, k as int, range, rollover, i),
        decreases sessions@.len() - k,
    {
        let session = &sessions[k];
        let day = day_at(session.started, session.offset_minutes, rollover);
        match range.index_of(day) {
            Some(index) => {
                assert(work_of(sessions@[k as int].spans@) <= u64::MAX);
                let work = session.work_seconds();
                let sum = days[index].saturating_add(work);
                days.set(index, sum);
            },
            None => {},
        }
        k = k + 1;
    }
    assert(days@ =~= daily_of(sessions@, range, rollover));
    days
}

/// Seconds of work over the whole of `range`: the days of [`daily`] added up, held to a `u64`.
pub fn total(sessions: &[Session], range: Range, rollover: TimeOfDay) -> (sum: u64)
    requires
        countable(sessions@),
    ensures
        sum == saturating_sum(daily_of(sessions@, range, rollover), range.days as int),
{
    let days = daily(sessions, range, rollover);
    let mut sum: u64 = 0;
    let mut i: usize = 0;
    while i < days.len()
        invariant
            i <= days@.len(),
            days@ == daily_of(sessions@, range, rollover),
            sum == saturating_sum(days@, i as int),
        decreases days@.len() - i,
    {
        sum = sum.saturating_add(days[i]);
        i = i + 1;
    }
    sum
}

/// How many of the first `n` sessions count within `range`.
pub open spec fn count_within(sessions: Seq<Session>, n: int, range: Range, rollover: TimeOfDay) -> nat
    decreases n,
{
    if n <= 0 {
        0
    } else {
        count_within(sessions, n - 1, range, rollover) + if slot_of(range, sessions[n - 1], rollover) is Some {
            1nat
        } else {
            0nat
        }
    }
}

/// The work of the first `n` sessions that count within `range`, held to a `u64`.
pub open spec fn work_within(sessions: Seq<Session>, n: int, range: Range, rollover: TimeOfDay) -> u64
    decreases n,
{
    if n <= 0 {
        0
    } else {
        let before = work_within(sessions, n - 1, range, rollover);
        if slot_of(range, sessions[n - 1], rollover) is Some {
            held_add(before, work_of(sessions[n - 1].spans@))
        } else {
            before
        }
    }
}

proof fn lemma_count_within_bounded(sessions: Seq<Session>, n: int, range: Range, rollover: TimeOfDay)
    requires
        0 <= n,
    ensures
        count_within(sessions, n, range, rollover) <= n,
    decreases n,
{
    if n > 0 {
        lemma_count_within_bounded(sessions, n - 1, range, rollover);
    }
}

/// How many of `sessions` count within `range`, and the mean seconds of work in one, rounded
/// down; zero for none.
pub open spec fn count_and_mean(sessions: Seq<Session>, range: Range, rollover: TimeOfDay) -> (int, int) {
    let count = count_within(sessions, sessions.len() as int, range, rollover);
    let work = work_within(sessions, sessions.len() as int, range, rollover);
    (count as int, if count > 0 { work as int / count as int } else { 0 })
}

/// How many sessions fell in `range` and the mean seconds of work in one, rounded down; zero for
/// none. The work is added up held to a `u64`.
pub fn session_count_and_mean(sessions: &[Session], range: Range, rollover: TimeOfDay) -> (found: (usize, u64))
    requires
        countable(sessions@),
    ensures
        found.0 == count_within(sessions@, sessions@.len() as int, range, rollover),
        found.1 == (if found.0 > 0 {
            work_within(sessions@, sessions@.len() as int, range, rollover) as int / found.0 as int
        } else {
            0int
        }),
        (found.0 as int, found.1 as int) == count_and_mean(sessions@, range, rollover),
{
    let mut count: usize = 0;
    let mut seconds: u64 = 0;
    let mut k: usize = 0;
    while k < sessions.len()
        invariant
            k <= sessions@.len(),
            countable(sessions@),
            count == count_within(sessions@, k as int, range, rollover),
            seconds == work_within(sessions@, k as int, range, rollover),
        decreases sessions@.len() - k,
    {
        proof {
            lemma_count_within_bounded(sessions@, k as int, range, rollover);
        }
        let session = &sessions[k];
        let day = day_at(session.started, session.offset_minutes, rollover);
        if range.index_of(day).is_some() {
            assert(work_of(sessions@[k as int].spans@) <= u64::MAX);
            let work = session.work_seconds();
            seconds = seconds.saturating_add(work);
            count = count + 1;
        }
        k = k + 1;
    }
    let mean: u64 = if count > 0 {
        seconds / count as u64
    } else {
        0
    };
    (count, mean)
}

/// The stretch of days a goal of `period` runs over that holds the day `today`: the day itself,
/// its week from `week_start`, or its calendar month.
pub open spec fn goal_span(period: Period, today: i64, week_first: Weekday) -> Range {
    match period {
        Period::Day => Range { from: today, days: 1 },
        Period::Week => Range { from: week_start_of(today as int, week_first) as i64, days: 7 },
        Period::Month => Range { from: month_first(today), days: month_length(today) as usize },
    }
}

/// The stretch of days a goal of `period` runs over that holds `today`: the day itself, its week
/// from `week_first`, or its calendar month.
pub fn goal_range(period: Period, today: i64, week_first: Weekday) -> (range: Range)
    requires
        on_calendar(today as int),
    ensures
        range == goal_span(period, today, week_first),
{
    match period {
        Period::Day => Range::day(today),
        Period::Week => Range::new(week_start(today, week_first), 7),
        Period::Month => Range::new(first_of_month(today), days_in_month(today) as usize),
    }
}

/// The work of the first `n` sessions under any of `focuses` that count within `range`, held to a
/// `u64`.
pub open spec fn goal_work(
    sessions: Seq<Session>,
    n: int,
    range: Range,
    rollover: TimeOfDay,
    focuses: Seq<Id>,
) -> u64
    decreases n,
{
    if n <= 0 {
        0
    } else {
        let before = goal_work(sessions, n - 1, range, rollover, focuses);
        if slot_of(range, sessions[n - 1], rollover) is Some && focuses.contains(sessions[n - 1].focus) {
            held_add(before, work_of(sessions[n - 1].spans@))
        } else {
            before
        }
    }
}

/// Whether `focuses` holds `focus`.
fn holds_focus(focuses: &[Id], focus: Id) -> (found: bool)
    ensures
        found == focuses@.contains(focus),
{
    let mut i: usize = 0;
    while i < focuses.len()
        invariant
            i <= focuses@.len(),
            forall|j: int| 0 <= j < i ==> focuses@[j] != focus,
        decreases focuses@.len() - i,
    {
        if focuses[i] == focus {
            return true;
        }
        i = i + 1;
    }
    false
}

/// How far `goal` has come: the seconds of work under any of `focuses` in the goal's window
/// around `today`, and the seconds the goal asks for. A category's goal is measured over all of
/// its focuses, archived ones included, since their work was lived too.
pub fn goal_progress(
    goal: Goal,
    focuses: &[Id],
    sessions: &[Session],
    today: i64,
    week_first: Weekday,
    rollover: TimeOfDay,
) -> (progress: (u64, u64))
    requires
        on_calendar(today as int),
        countable(sessions@),
    ensures
        progress.0 == goal_work(
            sessions@,
            sessions@.len() as int,
            goal_span(goal.period, today, week_first),
            rollover,
            focuses@,
        ),
        progress.1 == goal.amount,
{
    let range = goal_range(goal.period, today, week_first);
    let mut done: u64 = 0;
    let mut k: usize = 0;
    while k < sessions.len()
        invariant
            k <= sessions@.len(),
            countable(sessions@),
            range == goal_span(goal.period, today, week_first),
            done == goal_work(sessions@, k as int, range, rollover, focuses@),
        decreases sessions@.len() - k,
    {
        let session = &sessions[k];
        let day = day_at(session.started, session.offset_minutes, rollover);
        if range.index_of(day).is_some() && holds_focus(focuses, session.focus) {
            assert(work_of(sessions@[k as int].spans@) <= u64::MAX);
            let work = session.work_seconds();
            done = done.saturating_add(work);
        }
        k = k + 1;
    }
    (done, goal.amount as u64)
}

/// How many series tones a theme carries.
pub open spec fn series_tones() -> int {
    5
}

/// `qframe::theme::SERIES_COLORS`: the number of series tones a theme carries, five.
#[verifier::external_body]
fn series_colors() -> (tones: usize)
    ensures
        tones == series_tones(),
{
    qframe::theme::SERIES_COLORS
}

/// How many of the first `n` categories have an identifier made before `id`.
pub open spec fn made_before(categories: Seq<Category>, n: int, id: Id) -> nat
    decreases n,
{
    if n <= 0 {
        0
    } else {
        made_before(categories, n - 1, id) + if categories[n - 1].id.value() < id.value() {
            1nat
        } else {
            0nat
        }
    }
}

/// Whether one of `categories` has the identifier `id`.
pub open spec fn has_category(categories: Seq<Category>, id: Id) -> bool {
    exists|k: int| 0 <= k < categories.len() && #[trigger] categories[k].id == id
}

/// The place of a category among the catalogue's categories in the order they were made: the
/// number made before it, or the number of categories for one the catalogue does not have.
pub open spec fn made_place(categories: Seq<Category>, category: Option<Id>) -> int {
    match category {
        Some(id) => if has_category(categories, id) {
            made_before(categories, categories.len() as int, id) as int
        } else {
            categories.len() as int
        },
        None => categories.len() as int,
    }
}

proof fn lemma_made_before_bounded(categories: Seq<Category>, n: int, id: Id)
    requires
        0 <= n,
    ensures
        made_before(categories, n, id) <= n,
    decreases n,
{
    if n > 0 {
        lemma_made_before_bounded(categories, n - 1, id);
    }
}

/// The series tone of a category, the same on every screen and every day: its place among the
/// catalogue's categories in the order they were made, wrapped over the theme's tones.
///
/// Categories are only ever added, never taken out (archiving keeps them in the catalogue), so
/// a new one takes the next tone and no existing one changes. Sessions of a focus in no
/// category (`None`) take the tone after the last category's.
pub fn tone_of(catalog: &Tree, category: Option<Id>) -> (tone: usize)
    ensures
        tone == made_place(catalog.categories@, category) % series_tones(),
{
    let categories = &catalog.categories;
    let mut before: usize = 0;
    let mut found = false;
    let mut k: usize = 0;
    while k < categories.len()
        invariant
            k <= categories@.len(),
            before == match category {
                Some(id) => made_before(categories@, k as int, id),
                None => 0,
            },
            found == match category {
                Some(id) => exists|j: int| 0 <= j < k && #[trigger] categories@[j].id == id,
                None => false,
            },
        decreases categories@.len() - k,
    {
        match category {
            Some(id) => {
                proof {
                    lemma_made_before_bounded(categories@, k as int, id);
                }
                if categories[k].id.is_before(&id) {
                    before = before + 1;
                }
                if categories[k].id == id {
                    found = true;
                }
            },
            None => {},
        }
        k = k + 1;
    }
    let place = if found {
        before
    } else {
        categories.len()
    };
    place % series_colors()
}

/// Seconds in an hour.
pub const HOUR: i64 = 3_600;

/// `hours` after `left` seconds of work from the local second `at` are shared out over the hours
/// of the clock they pass through, each hour's count held to a `u64`.
pub open spec fn share_out(hours: Seq<u64>, at: int, left: int) -> Seq<u64>
    decreases left,
{
    if left <= 0 {
        hours
    } else {
        let hour = at % (DAY as int) / (HOUR as int);
        let until_next = HOUR - at % (HOUR as int);
        let taken = if left < until_next { left } else { until_next };
        share_out(hours.update(hour, held_add(hours[hour], taken)), clamp_i64(at + taken), left - taken)
    }
}

/// `hours` after the work spans among the first `n` of `spans`, of a session whose local start
/// is `start`, are shared out.
pub open spec fn spans_shared(hours: Seq<u64>, start: int, spans: Seq<Span>, n: int) -> Seq<u64>
    decreases n,
{
    if n <= 0 {
        hours
    } else {
        let before = spans_shared(hours, start, spans, n - 1);
        let span = spans[n - 1];
        if span.kind == SpanKind::Work {
            share_out(before, clamp_i64(start + span.offset), span.seconds as int)
        } else {
            before
        }
    }
}

/// The work of the first `n` sessions that count under the day `day`, by the hour of the clock
/// it was lived in.
pub open spec fn hours_of(sessions: Seq<Session>, n: int, day: i64, rollover: TimeOfDay) -> Seq<u64>
    decreases n,
{
    if n <= 0 {
        Seq::new(24, |i: int| 0u64)
    } else {
        let before = hours_of(sessions, n - 1, day, rollover);
        let session = sessions[n - 1];
        if counted_day(session.started, session.offset_minutes, rollover) == day {
            spans_shared(
                before,
                local_start(session.started, session.offset_minutes),
                session.spans@,
                session.spans@.len() as int,
            )
        } else {
            before
        }
    }
}

/// Shares `seconds` of work from the local second `at` out over the hours of `hours`.
fn share(hours: &mut [u64; 24], at: i64, seconds: u32)
    ensures
        final(hours)@ == share_out(old(hours)@, at as int, seconds as int),
{
    let ghost target = share_out(old(hours)@, at as int, seconds as int);
    let mut at: i64 = at;
    let mut left: i64 = seconds as i64;
    while left > 0
        invariant
            0 <= left,
            hours@.len() == 24,
            share_out(hours@, at as int, left as int) == target,
        decreases left,
    {
        let in_day: i64 = match at.checked_rem_euclid(86_400) {
            Some(r) => r,
            None => 0,
        };
        let in_hour: i64 = match at.checked_rem_euclid(3_600) {
            Some(r) => r,
            None => 0,
        };
        let hour: usize = (in_day / 3_600) as usize;
        let until_next: i64 = 3_600 - in_hour;
        let taken: i64 = if left < until_next {
            left
        } else {
            until_next
        };
        let sum = hours[hour].saturating_add(taken as u64);
        hours[hour] = sum;
        at = crate::arith::add_i64(at, taken);
        left = left - taken;
    }
}

/// Seconds of work in each hour of the day `day`, by the clock the sessions were lived in.
///
/// A work span is shared out over the hours it crosses, so an hour and a half from 13:30 puts
/// thirty minutes in the 13 slot and an hour in the 14 slot. A session counted under `day`
/// because it began before the rollover puts its work in the small hours of the clock, which is
/// where it was lived.
pub fn hourly(sessions: &[Session], day: i64, rollover: TimeOfDay) -> (hours: [u64; 24])
    ensures
        hours@ == hours_of(sessions@, sessions@.len() as int, day, rollover),
{
    let mut hours: [u64; 24] = [0u64; 24];
    assert(hours@ =~= Seq::new(24, |i: int| 0u64));
    let mut k: usize = 0;
    while k < sessions.len()
        invariant
            k <= sessions@.len(),
            hours@ == hours_of(sessions@, k as int, day, rollover),
        decreases sessions@.len() - k,
    {
        let session = &sessions[k];
        if day_at(session.started, session.offset_minutes, rollover) == day {
            let start = crate::arith::add_i64(session.started, session.offset_minutes as i64 * 60);
            let ghost before = hours@;
            let mut j: usize = 0;
            while j < session.spans.len()
                invariant
                    j <= session.spans@.len(),
                    start == local_start(session.started, session.offset_minutes),
                    hours@ == spans_shared(before, start as int, session.spans@, j as int),
                decreases session.spans@.len() - j,
            {
                let span = session.spans[j];
                if span.kind == SpanKind::Work {
                    let at = crate::arith::add_i64(start, span.offset as i64);
                    share(&mut hours, at, span.seconds);
                }
                j = j + 1;
            }
        }
        k = k + 1;
    }
    hours
}

/// Whether block `a` comes no later than block `b` on a strip: by start, then length, then focus.
pub open spec fn block_le(a: Block, b: Block) -> bool {
    ||| a.from < b.from
    ||| a.from == b.from && a.seconds < b.seconds
    ||| a.from == b.from && a.seconds == b.seconds && a.focus.value() <= b.focus.value()
}

/// `sorted` with `block` put after every block that comes no later than it.
pub open spec fn block_inserted(sorted: Seq<Block>, block: Block) -> Seq<Block>
    decreases sorted.len(),
{
    if sorted.len() == 0 {
        seq![block]
    } else if block_le(sorted.last(), block) {
        sorted.push(block)
    } else {
        block_inserted(sorted.drop_last(), block).push(sorted.last())
    }
}

/// `blocks` in strip order; blocks that tie keep the order they came in.
pub open spec fn blocks_sorted(blocks: Seq<Block>) -> Seq<Block>
    decreases blocks.len(),
{
    if blocks.len() == 0 {
        blocks
    } else {
        block_inserted(blocks_sorted(blocks.drop_last()), blocks.last())
    }
}

/// Whether block `a` comes no later than block `b`.
fn block_before(a: &Block, b: &Block) -> (le: bool)
    ensures
        le == block_le(*a, *b),
{
    a.from < b.from || (a.from == b.from && (a.seconds < b.seconds || (a.seconds == b.seconds && !b.focus.is_before(&a.focus))))
}

/// Puts `block` into the strip-ordered `sorted`.
fn insert_block(sorted: &mut Vec<Block>, block: Block)
    ensures
        final(sorted)@ == block_inserted(old(sorted)@, block),
    decreases old(sorted)@.len(),
{
    if sorted.len() == 0 {
        sorted.push(block);
    } else {
        let last = sorted[sorted.len() - 1];
        if block_before(&last, &block) {
            sorted.push(block);
        } else {
            let popped = sorted.pop();
            assert(sorted@ =~= old(sorted)@.drop_last());
            insert_block(sorted, block);
            sorted.push(last);
        }
    }
}

/// `blocks` in strip order, ties kept in the order they came in.
fn sort_blocks(blocks: Vec<Block>) -> (sorted: Vec<Block>)
    ensures
        sorted@ == blocks_sorted(blocks@),
{
    let mut sorted: Vec<Block> = Vec::new();
    let mut i: usize = 0;
    while i < blocks.len()
        invariant
            i <= blocks@.len(),
            sorted@ == blocks_sorted(blocks@.take(i as int)),
        decreases blocks@.len() - i,
    {
        assert(blocks@.take(i as int + 1).drop_last() =~= blocks@.take(i as int));
        insert_block(&mut sorted, blocks[i]);
        i = i + 1;
    }
    assert(blocks@.take(blocks@.len() as int) =~= blocks@);
    sorted
}

/// The local second the day `day` starts at when days turn at `rollover`.
pub open spec fn day_start_of(day: i64, rollover: TimeOfDay) -> i64 {
    clamp_i64(clamp_i64(day * DAY) + seconds_of(rollover)) as i64
}

/// The blocks a stretch puts in the strip of the day `day`: those of the day it counts under,
/// or, when it counts under the day before, those that carry on into `day`.
pub open spec fn stretch_blocks(
    focus: Id,
    started: i64,
    offset_minutes: i16,
    spans: Seq<Span>,
    running: bool,
    day: i64,
    rollover: TimeOfDay,
) -> Seq<Block> {
    let on = counted_day(started, offset_minutes, rollover);
    let start = local_start(started, offset_minutes);
    let day_start = day_start_of(day, rollover);
    if on == day {
        blocks_upto(focus, start, spans, running, spans.len() as int, day_start, false)
    } else if on == clamp_i64(day - 1) {
        blocks_upto(focus, start, spans, running, spans.len() as int, day_start, true)
    } else {
        Seq::empty()
    }
}

/// The blocks the first `n` sessions put in the strip of the day `day`, in the order of the
/// sessions.
pub open spec fn sessions_blocks(sessions: Seq<Session>, n: int, day: i64, rollover: TimeOfDay) -> Seq<Block>
    decreases n,
{
    if n <= 0 {
        Seq::empty()
    } else {
        let session = sessions[n - 1];
        sessions_blocks(sessions, n - 1, day, rollover) + stretch_blocks(
            session.focus,
            session.started,
            session.offset_minutes,
            session.spans@,
            false,
            day,
            rollover,
        )
    }
}

/// The blocks of the strip of the day `day`, before they are put in order: those of the
/// sessions, then those of the counter still running.
pub open spec fn strip_blocks(sessions: Seq<Session>, running: Option<Running>, day: i64, rollover: TimeOfDay) -> Seq<Block> {
    sessions_blocks(sessions, sessions.len() as int, day, rollover) + match running {
        Some(counter) => stretch_blocks(
            counter.focus,
            counter.started,
            counter.offset_minutes,
            counter.spans@,
            true,
            day,
            rollover,
        ),
        None => Seq::empty(),
    }
}

/// Adds the blocks `stretch` puts in the strip of the day `day`.
fn place_stretch(blocks: &mut Vec<Block>, stretch: &Stretch, day: i64, day_start: i64, rollover: TimeOfDay)
    requires
        day_start == day_start_of(day, rollover),
    ensures
        final(blocks)@ == old(blocks)@ + stretch_blocks(
            stretch.focus,
            stretch.started,
            stretch.offset_minutes,
            stretch.spans@,
            stretch.running,
            day,
            rollover,
        ),
{
    let on = day_at(stretch.started, stretch.offset_minutes, rollover);
    let yesterday = crate::arith::sub_i64(day, 1);
    if on == day {
        place(blocks, stretch, day_start, false);
    } else if on == yesterday {
        place(blocks, stretch, day_start, true);
    } else {
        assert(old(blocks)@ + Seq::<Block>::empty() =~= old(blocks)@);
    }
}

/// The work of the day `day` as blocks for its strip, in time order: one block per work span,
/// so two focuses in one hour are two blocks and no dominant one is chosen. `running` is the
/// counter still on, whose open work span is a [`Edge::Running`] block.
///
/// A day runs 24 hours from `rollover`. A session counted under `day` that goes on past its end
/// keeps its block to the end, marked [`Edge::PastEnd`]; the strip of the next day carries the
/// rest as [`Edge::Continued`] blocks from its start.
pub fn strip(sessions: &[Session], running: Option<&Running>, day: i64, rollover: TimeOfDay) -> (blocks: Vec<Block>)
    ensures
        blocks@ == blocks_sorted(
            strip_blocks(
                sessions@,
                match running {
                    Some(counter) => Some(*counter),
                    None => None,
                },
                day,
                rollover,
            ),
        ),
{
    let day_start = crate::arith::add_i64(day_seconds(day), rollover.seconds_since_midnight() as i64);
    let mut blocks: Vec<Block> = Vec::new();
    let mut k: usize = 0;
    while k < sessions.len()
        invariant
            k <= sessions@.len(),
            day_start == day_start_of(day, rollover),
            blocks@ == sessions_blocks(sessions@, k as int, day, rollover),
        decreases sessions@.len() - k,
    {
        let session = &sessions[k];
        let stretch = Stretch {
            focus: session.focus,
            started: session.started,
            offset_minutes: session.offset_minutes,
            spans: session.spans.as_slice(),
            running: false,
        };
        place_stretch(&mut blocks, &stretch, day, day_start, rollover);
        k = k + 1;
    }
    match running {
        Some(counter) => {
            let stretch = Stretch {
                focus: counter.focus,
                started: counter.started,
                offset_minutes: counter.offset_minutes,
                spans: counter.spans.as_slice(),
                running: true,
            };
            place_stretch(&mut blocks, &stretch, day, day_start, rollover);
        },
        None => {
            assert(blocks@ + Seq::<Block>::empty() =~= blocks@);
        },
    }
    sort_blocks(blocks)
}

/// `day × seconds in a day`, held to an `i64`.
fn day_seconds(day: i64) -> (seconds: i64)
    ensures
        seconds == clamp_i64(day * DAY),
{
    let wide: i128 = day as i128 * 86_400;
    if wide > i64::MAX as i128 {
        i64::MAX
    } else if wide < i64::MIN as i128 {
        i64::MIN
    } else {
        wide as i64
    }
}

/// The first place from `k` on where `tally` holds `focus`, or -1 where it does not.
pub open spec fn focus_at(tally: Seq<(Id, u64)>, focus: Id, k: int) -> int
    decreases tally.len() - k,
{
    if k < 0 || k >= tally.len() {
        -1
    } else if tally[k].0 == focus {
        k
    } else {
        focus_at(tally, focus, k + 1)
    }
}

/// The focuses of the first `n` sessions that count within `range`, each once in the order they
/// were first met, with their work held to a `u64`.
pub open spec fn focus_tally(sessions: Seq<Session>, n: int, range: Range, rollover: TimeOfDay) -> Seq<(Id, u64)>
    decreases n,
{
    if n <= 0 {
        Seq::empty()
    } else {
        let before = focus_tally(sessions, n - 1, range, rollover);
        let session = sessions[n - 1];
        if slot_of(range, session, rollover) is Some {
            let at = focus_at(before, session.focus, 0);
            let work = work_of(session.spans@);
            if at >= 0 {
                before.update(at, (session.focus, held_add(before[at].1, work)))
            } else {
                before.push((session.focus, work as u64))
            }
        } else {
            before
        }
    }
}

/// Whether `a` ranks no lower than `b`: more work first, the older focus first between equals.
pub open spec fn rank_le(a: (Id, u64), b: (Id, u64)) -> bool {
    a.1 > b.1 || (a.1 == b.1 && a.0.value() <= b.0.value())
}

/// `ranked` with `entry` put after every entry that ranks no lower than it.
pub open spec fn rank_inserted(ranked: Seq<(Id, u64)>, entry: (Id, u64)) -> Seq<(Id, u64)>
    decreases ranked.len(),
{
    if ranked.len() == 0 {
        seq![entry]
    } else if rank_le(ranked.last(), entry) {
        ranked.push(entry)
    } else {
        rank_inserted(ranked.drop_last(), entry).push(ranked.last())
    }
}

/// `tally` ranked, most work first.
pub open spec fn ranked(tally: Seq<(Id, u64)>) -> Seq<(Id, u64)>
    decreases tally.len(),
{
    if tally.len() == 0 {
        tally
    } else {
        rank_inserted(ranked(tally.drop_last()), tally.last())
    }
}

/// Where `tally` holds `focus`, the first place, or `None`.
fn find_focus(tally: &Vec<(Id, u64)>, focus: Id) -> (at: Option<usize>)
    ensures
        match at {
            Some(i) => focus_at(tally@, focus, 0) == i,
            None => focus_at(tally@, focus, 0) == -1,
        },
{
    let mut i: usize = 0;
    while i < tally.len()
        invariant
            i <= tally@.len(),
            focus_at(tally@, focus, 0) == focus_at(tally@, focus, i as int),
        decreases tally@.len() - i,
    {
        if tally[i].0 == focus {
            return Some(i);
        }
        i = i + 1;
    }
    None
}

proof fn lemma_focus_at_range(tally: Seq<(Id, u64)>, focus: Id, k: int)
    ensures
        focus_at(tally, focus, k) == -1 || (0 <= k <= focus_at(tally, focus, k) < tally.len()
            && tally[focus_at(tally, focus, k)].0 == focus),
    decreases tally.len() - k,
{
    if 0 <= k < tally.len() && tally[k].0 != focus {
        lemma_focus_at_range(tally, focus, k + 1);
    }
}

/// Puts `entry` into the ranked `ranked`.
fn insert_ranked(ranked: &mut Vec<(Id, u64)>, entry: (Id, u64))
    ensures
        final(ranked)@ == rank_inserted(old(ranked)@, entry),
    decreases old(ranked)@.len(),
{
    if ranked.len() == 0 {
        ranked.push(entry);
    } else {
        let last = ranked[ranked.len() - 1];
        if last.1 > entry.1 || (last.1 == entry.1 && !entry.0.is_before(&last.0)) {
            ranked.push(entry);
        } else {
            let popped = ranked.pop();
            assert(ranked@ =~= old(ranked)@.drop_last());
            insert_ranked(ranked, entry);
            ranked.push(last);
        }
    }
}

/// The `n` focuses worked on most over `range`, most first, with their seconds; between equals
/// the focus made first comes first. Every focus with a session in the range takes part, and
/// each focus's seconds are held to a `u64`.
pub fn top_focuses(sessions: &[Session], range: Range, n: usize, rollover: TimeOfDay) -> (top: Vec<(Id, u64)>)
    requires
        countable(sessions@),
    ensures
        top@ == ranked(focus_tally(sessions@, sessions@.len() as int, range, rollover)).take(
            if n < focus_tally(sessions@, sessions@.len() as int, range, rollover).len() {
                n as int
            } else {
                focus_tally(sessions@, sessions@.len() as int, range, rollover).len() as int
            },
        ),
{
    let mut tally: Vec<(Id, u64)> = Vec::new();
    let mut k: usize = 0;
    while k < sessions.len()
        invariant
            k <= sessions@.len(),
            countable(sessions@),
            tally@ == focus_tally(sessions@, k as int, range, rollover),
        decreases sessions@.len() - k,
    {
        let session = &sessions[k];
        let day = day_at(session.started, session.offset_minutes, rollover);
        if range.index_of(day).is_some() {
            assert(work_of(sessions@[k as int].spans@) <= u64::MAX);
            let work = session.work_seconds();
            proof {
                lemma_focus_at_range(tally@, session.focus, 0);
            }
            match find_focus(&tally, session.focus) {
                Some(at) => {
                    let sum = tally[at].1.saturating_add(work);
                    tally.set(at, (session.focus, sum));
                },
                None => {
                    tally.push((session.focus, work));
                },
            }
        }
        k = k + 1;
    }
    let mut top: Vec<(Id, u64)> = Vec::new();
    let mut i: usize = 0;
    while i < tally.len()
        invariant
            i <= tally@.len(),
            top@ == ranked(tally@.take(i as int)),
        decreases tally@.len() - i,
    {
        assert(tally@.take(i as int + 1).drop_last() =~= tally@.take(i as int));
        insert_ranked(&mut top, tally[i]);
        i = i + 1;
    }
    assert(tally@.take(tally@.len() as int) =~= tally@);
    proof {
        lemma_ranked_length(tally@);
    }
    top.truncate(n);
    top
}

proof fn lemma_rank_inserted_length(ranked: Seq<(Id, u64)>, entry: (Id, u64))
    ensures
        rank_inserted(ranked, entry).len() == ranked.len() + 1,
    decreases ranked.len(),
{
    if ranked.len() > 0 && !rank_le(ranked.last(), entry) {
        lemma_rank_inserted_length(ranked.drop_last(), entry);
    }
}

proof fn lemma_ranked_length(tally: Seq<(Id, u64)>)
    ensures
        ranked(tally).len() == tally.len(),
    decreases tally.len(),
{
    if tally.len() > 0 {
        lemma_ranked_length(tally.drop_last());
        lemma_rank_inserted_length(ranked(tally.drop_last()), tally.last());
    }
}

/// Whether one of `focuses` has the identifier `id`.
pub open spec fn has_focus(focuses: Seq<Focus>, id: Id) -> bool {
    exists|j: int| 0 <= j < focuses.len() && #[trigger] focuses[j].id == id
}

/// The category among the first `n` that holds `focus`, the last one where several do, or
/// `None`.
pub open spec fn owner_of(categories: Seq<Category>, n: int, focus: Id) -> Option<Id>
    decreases n,
{
    if n <= 0 {
        None
    } else if has_focus(categories[n - 1].focuses@, focus) {
        Some(categories[n - 1].id)
    } else {
        owner_of(categories, n - 1, focus)
    }
}

/// A category's work over a stretch as values: the category and the seconds of each day.
pub open spec fn category_days(share: CategoryDays) -> (Option<Id>, Seq<u64>) {
    (share.category, share.days@)
}

/// The first place from `k` on where `tally` holds `category`, or -1 where it does not.
pub open spec fn category_at(tally: Seq<(Option<Id>, Seq<u64>)>, category: Option<Id>, k: int) -> int
    decreases tally.len() - k,
{
    if k < 0 || k >= tally.len() {
        -1
    } else if tally[k].0 == category {
        k
    } else {
        category_at(tally, category, k + 1)
    }
}

/// The categories of the first `n` sessions that count within `range`, each once in the order
/// they were first met, with the work of each day held to a `u64`. A session whose focus is in
/// no category counts under `None`.
pub open spec fn category_tally(
    sessions: Seq<Session>,
    n: int,
    range: Range,
    rollover: TimeOfDay,
    categories: Seq<Category>,
) -> Seq<(Option<Id>, Seq<u64>)>
    decreases n,
{
    if n <= 0 {
        Seq::empty()
    } else {
        let before = category_tally(sessions, n - 1, range, rollover, categories);
        let session = sessions[n - 1];
        match slot_of(range, session, rollover) {
            Some(i) => {
                let owner = owner_of(categories, categories.len() as int, session.focus);
                let at = category_at(before, owner, 0);
                let work = work_of(session.spans@);
                if at >= 0 {
                    before.update(at, (owner, before[at].1.update(i, held_add(before[at].1[i], work))))
                } else {
                    before.push((owner, Seq::new(range.days as nat, |d: int| 0u64).update(i, work as u64)))
                }
            },
            None => before,
        }
    }
}

/// Whether the work of `a` comes no later than that of `b` in the list by category: categories
/// in tone order, the older first between equal tones, and sessions in no category last.
pub open spec fn category_le(categories: Seq<Category>, a: Option<Id>, b: Option<Id>) -> bool {
    match (a, b) {
        (_, None) => true,
        (None, Some(_)) => false,
        (Some(x), Some(y)) => {
            let tx = made_place(categories, a) % series_tones();
            let ty = made_place(categories, b) % series_tones();
            tx < ty || (tx == ty && x.value() <= y.value())
        },
    }
}

/// `sorted` with `share` put after every share that comes no later than it.
pub open spec fn category_inserted(
    categories: Seq<Category>,
    sorted: Seq<(Option<Id>, Seq<u64>)>,
    share: (Option<Id>, Seq<u64>),
) -> Seq<(Option<Id>, Seq<u64>)>
    decreases sorted.len(),
{
    if sorted.len() == 0 {
        seq![share]
    } else if category_le(categories, sorted.last().0, share.0) {
        sorted.push(share)
    } else {
        category_inserted(categories, sorted.drop_last(), share).push(sorted.last())
    }
}

/// `tally` in the order of the list by category.
pub open spec fn categories_sorted(categories: Seq<Category>, tally: Seq<(Option<Id>, Seq<u64>)>) -> Seq<(Option<Id>, Seq<u64>)>
    decreases tally.len(),
{
    if tally.len() == 0 {
        tally
    } else {
        category_inserted(categories, categories_sorted(categories, tally.drop_last()), tally.last())
    }
}

/// The category of `catalog` that holds `focus`, the last one where several do.
fn owner(catalog: &Tree, focus: Id) -> (found: Option<Id>)
    ensures
        found == owner_of(catalog.categories@, catalog.categories@.len() as int, focus),
{
    let categories = &catalog.categories;
    let mut k: usize = categories.len();
    while k > 0
        invariant
            categories@ == catalog.categories@,
            k <= categories@.len(),
            owner_of(categories@, categories@.len() as int, focus) == owner_of(categories@, k as int, focus),
        decreases k,
    {
        let focuses = &categories[k - 1].focuses;
        let mut j: usize = 0;
        while j < focuses.len()
            invariant
                categories@ == catalog.categories@,
                0 < k <= categories@.len(),
                owner_of(categories@, categories@.len() as int, focus) == owner_of(categories@, k as int, focus),
                j <= focuses@.len(),
                focuses@ == categories@[k - 1].focuses@,
                forall|i: int| 0 <= i < j ==> focuses@[i].id != focus,
            decreases focuses@.len() - j,
        {
            if focuses[j].id == focus {
                assert(has_focus(categories@[k - 1].focuses@, focus));
                assert(owner_of(categories@, k as int, focus) == Some(categories@[k - 1].id));
                return Some(categories[k - 1].id);
            }
            j = j + 1;
        }
        k = k - 1;
    }
    None
}

/// Where `shares` holds `category`, the first place, or `None`.
fn find_category(shares: &Vec<CategoryDays>, category: Option<Id>) -> (at: Option<usize>)
    ensures
        match at {
            Some(i) => category_at(shares@.map_values(|c: CategoryDays| category_days(c)), category, 0) == i,
            None => category_at(shares@.map_values(|c: CategoryDays| category_days(c)), category, 0) == -1,
        },
{
    let ghost tally = shares@.map_values(|c: CategoryDays| category_days(c));
    let mut i: usize = 0;
    while i < shares.len()
        invariant
            i <= shares@.len(),
            tally == shares@.map_values(|c: CategoryDays| category_days(c)),
            category_at(tally, category, 0) == category_at(tally, category, i as int),
        decreases shares@.len() - i,
    {
        if shares[i].category == category {
            return Some(i);
        }
        i = i + 1;
    }
    None
}

proof fn lemma_category_at_range(tally: Seq<(Option<Id>, Seq<u64>)>, category: Option<Id>, k: int)
    ensures
        category_at(tally, category, k) == -1 || (0 <= k <= category_at(tally, category, k) < tally.len()
            && tally[category_at(tally, category, k)].0 == category),
    decreases tally.len() - k,
{
    if 0 <= k < tally.len() && tally[k].0 != category {
        lemma_category_at_range(tally, category, k + 1);
    }
}

/// Whether the work of `a` comes no later than that of `b` in the list by category.
fn category_before(catalog: &Tree, a: Option<Id>, b: Option<Id>) -> (le: bool)
    ensures
        le == category_le(catalog.categories@, a, b),
{
    match (a, b) {
        (_, None) => true,
        (None, Some(_)) => false,
        (Some(x), Some(y)) => {
            let tx = tone_of(catalog, a);
            let ty = tone_of(catalog, b);
            tx < ty || (tx == ty && !y.is_before(&x))
        },
    }
}

/// Puts `share` into the list by category `sorted`.
fn insert_category(catalog: &Tree, sorted: &mut Vec<CategoryDays>, share: CategoryDays)
    ensures
        final(sorted)@.map_values(|c: CategoryDays| category_days(c)) == category_inserted(
            catalog.categories@,
            old(sorted)@.map_values(|c: CategoryDays| category_days(c)),
            category_days(share),
        ),
    decreases old(sorted)@.len(),
{
    let ghost before = old(sorted)@.map_values(|c: CategoryDays| category_days(c));
    if sorted.len() == 0 {
        sorted.push(share);
        assert(sorted@.map_values(|c: CategoryDays| category_days(c)) =~= seq![category_days(share)]);
    } else if category_before(catalog, sorted[sorted.len() - 1].category, share.category) {
        sorted.push(share);
        assert(sorted@.map_values(|c: CategoryDays| category_days(c)) =~= before.push(category_days(share)));
    } else {
        let popped = sorted.pop();
        match popped {
            Some(last) => {
                assert(sorted@.map_values(|c: CategoryDays| category_days(c)) =~= before.drop_last());
                insert_category(catalog, sorted, share);
                let ghost middle = sorted@;
                sorted.push(last);
                assert(sorted@.map_values(|c: CategoryDays| category_days(c)) =~= middle.map_values(
                    |c: CategoryDays| category_days(c),
                ).push(category_days(last)));
            },
            None => {},
        }
    }
}

/// The work of every category that had any session over `range`, day by day, in the tone
/// order of the categories ([`tone_of`]), the older first between equal tones; sessions of a
/// focus that is in no category come last under `None`.
///
/// Archived categories and focuses count: their sessions were lived.
pub fn by_category(sessions: &[Session], range: Range, catalog: &Tree, rollover: TimeOfDay) -> (shares: Vec<CategoryDays>)
    requires
        countable(sessions@),
    ensures
        shares@.map_values(|c: CategoryDays| category_days(c)) == categories_sorted(
            catalog.categories@,
            category_tally(sessions@, sessions@.len() as int, range, rollover, catalog.categories@),
        ),
{
    let mut tally: Vec<CategoryDays> = Vec::new();
    let mut k: usize = 0;
    while k < sessions.len()
        invariant
            k <= sessions@.len(),
            countable(sessions@),
            tally@.map_values(|c: CategoryDays| category_days(c)) == category_tally(
                sessions@,
                k as int,
                range,
                rollover,
                catalog.categories@,
            ),
            forall|j: int| 0 <= j < tally@.len() ==> (#[trigger] tally@[j]).days@.len() == range.days,
        decreases sessions@.len() - k,
    {
        let ghost before = tally@.map_values(|c: CategoryDays| category_days(c));
        let session = &sessions[k];
        let day = day_at(session.started, session.offset_minutes, rollover);
        match range.index_of(day) {
            Some(index) => {
                assert(work_of(sessions@[k as int].spans@) <= u64::MAX);
                let work = session.work_seconds();
                let category = owner(catalog, session.focus);
                proof {
                    lemma_category_at_range(before, category, 0);
                }
                match find_category(&tally, category) {
                    Some(at) => {
                        let mut share = tally.remove(at);
                        let sum = share.days[index].saturating_add(work);
                        share.days.set(index, sum);
                        tally.insert(at, share);
                        assert(tally@.map_values(|c: CategoryDays| category_days(c)) =~= before.update(
                            at as int,
                            (category, before[at as int].1.update(index as int, held_add(before[at as int].1[index as int], work as int))),
                        ));
                    },
                    None => {
                        let mut days: Vec<u64> = vec![0u64; range.days];
                        days.set(index, work);
                        let share = CategoryDays { category, days };
                        tally.push(share);
                        assert(days@ =~= Seq::new(range.days as nat, |d: int| 0u64).update(index as int, work));
                        assert(tally@.map_values(|c: CategoryDays| category_days(c)) =~= before.push(
                            (category, Seq::new(range.days as nat, |d: int| 0u64).update(index as int, work)),
                        ));
                    },
                }
            },
            None => {},
        }
        k = k + 1;
    }
    let mut shares: Vec<CategoryDays> = Vec::new();
    let count = tally.len();
    let ghost whole = tally@.map_values(|c: CategoryDays| category_days(c));
    assert(whole.skip(0) =~= whole);
    let mut taken: usize = 0;
    while tally.len() > 0
        invariant
            taken + tally@.len() == whole.len(),
            whole.len() <= usize::MAX,
            tally@.map_values(|c: CategoryDays| category_days(c)) == whole.skip(taken as int),
            shares@.map_values(|c: CategoryDays| category_days(c)) == categories_sorted(
                catalog.categories@,
                whole.take(taken as int),
            ),
        decreases tally@.len(),
    {
        let ghost rest = tally@;
        let share = tally.remove(0);
        assert(rest.map_values(|c: CategoryDays| category_days(c))[0] == whole.skip(taken as int)[0]);
        assert(whole.take(taken as int + 1).drop_last() =~= whole.take(taken as int));
        assert(whole.take(taken as int + 1).last() == category_days(share));
        insert_category(catalog, &mut shares, share);
        assert(tally@.map_values(|c: CategoryDays| category_days(c)) =~= rest.map_values(
            |c: CategoryDays| category_days(c),
        ).skip(1));
        assert(whole.skip(taken as int).skip(1) =~= whole.skip(taken as int + 1));
        taken = taken + 1;
    }
    assert(whole.take(whole.len() as int) =~= whole);
    shares
}

/// Whether `blocks` are in strip order.
pub open spec fn strip_ordered(blocks: Seq<Block>) -> bool {
    forall|i: int, j: int| 0 <= i < j < blocks.len() ==> block_le(#[trigger] blocks[i], #[trigger] blocks[j])
}

proof fn lemma_block_inserted(sorted: Seq<Block>, block: Block)
    requires
        strip_ordered(sorted),
    ensures
        strip_ordered(block_inserted(sorted, block)),
        block_inserted(sorted, block).to_multiset() =~= sorted.to_multiset().insert(block),
    decreases sorted.len(),
{
    broadcast use vstd::seq_lib::group_to_multiset_ensures;

    if sorted.len() == 0 {
        assert(seq![block] =~= Seq::<Block>::empty().push(block));
    } else if block_le(sorted.last(), block) {
        let r = sorted.push(block);
        assert forall|i: int, j: int| 0 <= i < j < r.len() implies block_le(#[trigger] r[i], #[trigger] r[j]) by {
            if j == sorted.len() {
                if i < sorted.len() - 1 {
                    assert(block_le(sorted[i], sorted[sorted.len() - 1]));
                }
            }
        }
    } else {
        let d = sorted.drop_last();
        let l = sorted.last();
        assert(strip_ordered(d));
        lemma_block_inserted(d, block);
        let inner = block_inserted(d, block);
        let r = inner.push(l);
        assert forall|i: int| 0 <= i < inner.len() implies block_le(#[trigger] inner[i], l) by {
            assert(inner.to_multiset().count(inner[i]) > 0);
            if inner[i] != block {
                assert(d.contains(inner[i]));
                let k = choose|k: int| 0 <= k < d.len() && d[k] == inner[i];
                assert(block_le(sorted[k], sorted[sorted.len() - 1]));
            }
        }
        assert forall|i: int, j: int| 0 <= i < j < r.len() implies block_le(#[trigger] r[i], #[trigger] r[j]) by {
            if j == inner.len() {
                assert(block_le(inner[i], l));
            }
        }
        assert(sorted =~= d.push(l));
    }
}

/// A day strip comes in time order, by start, then length, then focus, and holds every block
/// of the day, none twice and none lost.
pub proof fn law_a_strip_comes_in_time_order(blocks: Seq<Block>)
    ensures
        strip_ordered(blocks_sorted(blocks)),
        blocks_sorted(blocks).to_multiset() =~= blocks.to_multiset(),
    decreases blocks.len(),
{
    broadcast use vstd::seq_lib::group_to_multiset_ensures;

    if blocks.len() > 0 {
        law_a_strip_comes_in_time_order(blocks.drop_last());
        lemma_block_inserted(blocks_sorted(blocks.drop_last()), blocks.last());
        assert(blocks =~= blocks.drop_last().push(blocks.last()));
    }
}

proof fn lemma_made_before_push(categories: Seq<Category>, extra: Category, n: int, id: Id)
    requires
        0 <= n <= categories.len(),
    ensures
        made_before(categories.push(extra), n, id) == made_before(categories, n, id),
    decreases n,
{
    if n > 0 {
        lemma_made_before_push(categories, extra, n - 1, id);
    }
}

proof fn lemma_made_before_all(categories: Seq<Category>, n: int, id: Id)
    requires
        0 <= n <= categories.len(),
        forall|k: int| 0 <= k < categories.len() ==> (#[trigger] categories[k]).id.value() < id.value(),
    ensures
        made_before(categories, n, id) == n,
    decreases n,
{
    if n > 0 {
        lemma_made_before_all(categories, n - 1, id);
    }
}

/// Categories are only ever added, each made after the ones before it: a new category takes
/// the next tone, and no category the catalogue already has changes its tone.
pub proof fn law_a_new_category_takes_the_next_tone(categories: Seq<Category>, new: Category, id: Id)
    requires
        forall|k: int| 0 <= k < categories.len() ==> (#[trigger] categories[k]).id.value() < new.id.value(),
        has_category(categories, id),
    ensures
        made_place(categories.push(new), Some(id)) % series_tones() == made_place(categories, Some(id)) % series_tones(),
        made_place(categories.push(new), Some(new.id)) % series_tones() == categories.len() as int % series_tones(),
{
    let grown = categories.push(new);
    let k = choose|k: int| 0 <= k < categories.len() && #[trigger] categories[k].id == id;
    assert(grown[k].id == id);
    assert(has_category(grown, id));
    assert(grown[categories.len() as int].id == new.id);
    assert(has_category(grown, new.id));
    lemma_made_before_push(categories, new, categories.len() as int, id);
    lemma_made_before_push(categories, new, categories.len() as int, new.id);
    lemma_made_before_all(categories, categories.len() as int, new.id);
    Id::lemma_value(id, id.value());
    assert(categories[k].id.value() < new.id.value());
}

/// The seconds held in `hours` added up.
pub open spec fn hours_total(hours: Seq<u64>) -> int
    decreases hours.len(),
{
    if hours.len() == 0 {
        0
    } else {
        hours_total(hours.drop_last()) + hours.last()
    }
}

/// The work of the first `n` sessions that count under the day `day`, added up.
pub open spec fn work_counted(sessions: Seq<Session>, n: int, day: i64, rollover: TimeOfDay) -> int
    decreases n,
{
    if n <= 0 {
        0
    } else {
        work_counted(sessions, n - 1, day, rollover) + if counted_day(
            sessions[n - 1].started,
            sessions[n - 1].offset_minutes,
            rollover,
        ) == day {
            work_of(sessions[n - 1].spans@)
        } else {
            0
        }
    }
}

proof fn lemma_hours_total_update(hours: Seq<u64>, i: int, value: u64)
    requires
        0 <= i < hours.len(),
    ensures
        hours_total(hours.update(i, value)) == hours_total(hours) - hours[i] + value,
        hours[i] <= hours_total(hours),
    decreases hours.len(),
{
    if i < hours.len() - 1 {
        lemma_hours_total_update(hours.drop_last(), i, value);
        assert(hours.update(i, value).drop_last() =~= hours.drop_last().update(i, value));
    } else {
        assert(hours.update(i, value).drop_last() =~= hours.drop_last());
    }
    lemma_hours_total_nonnegative(hours.drop_last());
}

proof fn lemma_hours_total_nonnegative(hours: Seq<u64>)
    ensures
        hours_total(hours) >= 0,
    decreases hours.len(),
{
    if hours.len() > 0 {
        lemma_hours_total_nonnegative(hours.drop_last());
    }
}

proof fn lemma_share_out_total(hours: Seq<u64>, at: int, left: int)
    requires
        hours.len() == 24,
        0 <= left,
        hours_total(hours) + left <= u64::MAX,
    ensures
        share_out(hours, at, left).len() == 24,
        hours_total(share_out(hours, at, left)) == hours_total(hours) + left,
    decreases left,
{
    if left > 0 {
        let hour = at % (DAY as int) / (HOUR as int);
        let until_next = HOUR - at % (HOUR as int);
        let taken = if left < until_next { left } else { until_next };
        lemma_hours_total_update(hours, hour, held_add(hours[hour], taken));
        lemma_share_out_total(hours.update(hour, held_add(hours[hour], taken)), clamp_i64(at + taken), left - taken);
    }
}

proof fn lemma_spans_shared_total(hours: Seq<u64>, start: int, spans: Seq<Span>, n: int)
    requires
        hours.len() == 24,
        0 <= n <= spans.len(),
        hours_total(hours) + work_of(spans.subrange(0, n)) <= u64::MAX,
    ensures
        spans_shared(hours, start, spans, n).len() == 24,
        hours_total(spans_shared(hours, start, spans, n)) == hours_total(hours) + work_of(spans.subrange(0, n)),
    decreases n,
{
    if n > 0 {
        assert(spans.subrange(0, n).drop_last() =~= spans.subrange(0, n - 1));
        crate::span::lemma_work_of_prefix(spans.subrange(0, n - 1), 0);
        lemma_spans_shared_total(hours, start, spans, n - 1);
        let span = spans[n - 1];
        if span.kind == SpanKind::Work {
            lemma_share_out_total(spans_shared(hours, start, spans, n - 1), clamp_i64(start + span.offset), span.seconds as int);
        }
    } else {
        assert(spans.subrange(0, 0) =~= Seq::<Span>::empty());
    }
}

proof fn lemma_work_counted_nonnegative(sessions: Seq<Session>, n: int, day: i64, rollover: TimeOfDay)
    ensures
        0 <= work_counted(sessions, n, day, rollover),
    decreases n,
{
    if n > 0 {
        lemma_work_counted_nonnegative(sessions, n - 1, day, rollover);
        crate::span::lemma_work_of_prefix(sessions[n - 1].spans@, 0);
    }
}

proof fn lemma_hours_of_total(sessions: Seq<Session>, n: int, day: i64, rollover: TimeOfDay)
    requires
        0 <= n <= sessions.len(),
        work_counted(sessions, n, day, rollover) <= u64::MAX,
    ensures
        hours_of(sessions, n, day, rollover).len() == 24,
        hours_total(hours_of(sessions, n, day, rollover)) == work_counted(sessions, n, day, rollover),
    decreases n,
{
    if n > 0 {
        let session = sessions[n - 1];
        crate::span::lemma_work_of_prefix(session.spans@, 0);
        lemma_work_counted_nonnegative(sessions, n - 1, day, rollover);
        lemma_hours_of_total(sessions, n - 1, day, rollover);
        if counted_day(session.started, session.offset_minutes, rollover) == day {
            assert(session.spans@.subrange(0, session.spans@.len() as int) =~= session.spans@);
            lemma_spans_shared_total(
                hours_of(sessions, n - 1, day, rollover),
                local_start(session.started, session.offset_minutes),
                session.spans@,
                session.spans@.len() as int,
            );
        }
    } else {
        let zero = Seq::new(24, |i: int| 0u64);
        assert forall|m: int| 0 <= m <= 24 implies hours_total(#[trigger] zero.subrange(0, m)) == 0 by {
            lemma_zero_total(zero, m);
        }
        assert(zero.subrange(0, 24) =~= zero);
    }
}

proof fn lemma_zero_total(zero: Seq<u64>, m: int)
    requires
        0 <= m <= zero.len(),
        forall|i: int| 0 <= i < zero.len() ==> zero[i] == 0,
    ensures
        hours_total(zero.subrange(0, m)) == 0,
    decreases m,
{
    if m > 0 {
        lemma_zero_total(zero, m - 1);
        assert(zero.subrange(0, m).drop_last() =~= zero.subrange(0, m - 1));
    }
}

/// The hours of a day hold all the work of the sessions that count under it and nothing else:
/// added up they give that work, wherever on the clock it was lived, as long as the sum fits a
/// `u64`.
pub proof fn law_the_hours_add_up_to_the_work_of_the_day(sessions: Seq<Session>, day: i64, rollover: TimeOfDay)
    requires
        work_counted(sessions, sessions.len() as int, day, rollover) <= u64::MAX,
    ensures
        hours_total(hours_of(sessions, sessions.len() as int, day, rollover)) == work_counted(
            sessions,
            sessions.len() as int,
            day,
            rollover,
        ),
{
    lemma_hours_of_total(sessions, sessions.len() as int, day, rollover);
}

/// Whether two catalogues hold the same categories with the same focuses, by identifier, in the
/// same places, whatever else of them differs.
pub open spec fn same_identifiers(a: Seq<Category>, b: Seq<Category>) -> bool {
    &&& a.len() == b.len()
    &&& forall|k: int| 0 <= k < a.len() ==> #[trigger] a[k].id == b[k].id
    &&& forall|k: int| 0 <= k < a.len() ==> #[trigger] a[k].focuses@.len() == b[k].focuses@.len()
    &&& forall|k: int, f: int|
        0 <= k < a.len() && 0 <= f < a[k].focuses@.len() ==> #[trigger] a[k].focuses@[f].id == b[k].focuses@[f].id
}

proof fn lemma_same_owner(a: Seq<Category>, b: Seq<Category>, n: int, focus: Id)
    requires
        same_identifiers(a, b),
        0 <= n <= a.len(),
    ensures
        owner_of(a, n, focus) == owner_of(b, n, focus),
    decreases n,
{
    if n > 0 {
        lemma_same_owner(a, b, n - 1, focus);
        let k = n - 1;
        if has_focus(a[k].focuses@, focus) {
            let j = choose|j: int| 0 <= j < a[k].focuses@.len() && #[trigger] a[k].focuses@[j].id == focus;
            assert(b[k].focuses@[j].id == focus);
        }
        if has_focus(b[k].focuses@, focus) {
            let j = choose|j: int| 0 <= j < b[k].focuses@.len() && #[trigger] b[k].focuses@[j].id == focus;
            assert(a[k].focuses@[j].id == focus);
        }
    }
}

proof fn lemma_same_made_before(a: Seq<Category>, b: Seq<Category>, n: int, id: Id)
    requires
        same_identifiers(a, b),
        0 <= n <= a.len(),
    ensures
        made_before(a, n, id) == made_before(b, n, id),
    decreases n,
{
    if n > 0 {
        lemma_same_made_before(a, b, n - 1, id);
    }
}

proof fn lemma_same_place(a: Seq<Category>, b: Seq<Category>, category: Option<Id>)
    requires
        same_identifiers(a, b),
    ensures
        made_place(a, category) == made_place(b, category),
{
    match category {
        Some(id) => {
            lemma_same_made_before(a, b, a.len() as int, id);
            if has_category(a, id) {
                let k = choose|k: int| 0 <= k < a.len() && #[trigger] a[k].id == id;
                assert(b[k].id == id);
            }
            if has_category(b, id) {
                let k = choose|k: int| 0 <= k < b.len() && #[trigger] b[k].id == id;
                assert(a[k].id == id);
            }
        },
        None => {},
    }
}

proof fn lemma_same_tally(
    sessions: Seq<Session>,
    n: int,
    range: Range,
    rollover: TimeOfDay,
    a: Seq<Category>,
    b: Seq<Category>,
)
    requires
        same_identifiers(a, b),
    ensures
        category_tally(sessions, n, range, rollover, a) == category_tally(sessions, n, range, rollover, b),
    decreases n,
{
    if n > 0 {
        lemma_same_tally(sessions, n - 1, range, rollover, a, b);
        lemma_same_owner(a, b, a.len() as int, sessions[n - 1].focus);
    }
}

proof fn lemma_same_sorted(a: Seq<Category>, b: Seq<Category>, tally: Seq<(Option<Id>, Seq<u64>)>)
    requires
        same_identifiers(a, b),
    ensures
        categories_sorted(a, tally) == categories_sorted(b, tally),
    decreases tally.len(),
{
    if tally.len() > 0 {
        lemma_same_sorted(a, b, tally.drop_last());
        lemma_same_inserted(a, b, categories_sorted(a, tally.drop_last()), tally.last());
    }
}

proof fn lemma_same_inserted(
    a: Seq<Category>,
    b: Seq<Category>,
    sorted: Seq<(Option<Id>, Seq<u64>)>,
    share: (Option<Id>, Seq<u64>),
)
    requires
        same_identifiers(a, b),
    ensures
        category_inserted(a, sorted, share) == category_inserted(b, sorted, share),
    decreases sorted.len(),
{
    if sorted.len() > 0 {
        lemma_same_place(a, b, sorted.last().0);
        lemma_same_place(a, b, share.0);
        lemma_same_inserted(a, b, sorted.drop_last(), share);
    }
}

/// Archiving takes a category or focus out of the lists, not out of the past: the work by
/// category over any stretch, and the order the categories come in, are the same after a row
/// is archived or brought back as before.
pub proof fn law_archiving_keeps_the_work_by_category(
    sessions: Seq<Session>,
    range: Range,
    rollover: TimeOfDay,
    before: Seq<Category>,
    after: Seq<Category>,
    row: Row,
    archived: bool,
)
    requires
        row_changed(before, row, ChangeView::Archived(archived)) == Some(category_views(after)),
    ensures
        categories_sorted(after, category_tally(sessions, sessions.len() as int, range, rollover, after))
            == categories_sorted(before, category_tally(sessions, sessions.len() as int, range, rollover, before)),
{
    let views = category_views(before);
    let changed = category_views(after);
    let change = ChangeView::Archived(archived);
    assert(views.len() == before.len());
    assert(changed.len() == after.len());
    match row {
        Row::Category(id) => {
            lemma_category_at_found(before, id, 0);
            let c = crate::records::category_at(before, id, 0).unwrap();
            assert(changed == views.update(c, category_changed(views[c], change)));
        },
        Row::Focus(id) => {
            lemma_focus_at_found(before, id, 0);
            let (c, f) = crate::records::focus_at(before, id, 0).unwrap();
            assert(changed == views.update(
                c,
                CategoryView { focuses: views[c].focuses.update(f, focus_changed(views[c].focuses[f], change)), ..views[c] },
            ));
        },
        _ => {},
    }
    assert forall|k: int| 0 <= k < after.len() implies #[trigger] after[k].id == before[k].id by {
        assert(changed[k].id == views[k].id);
    }
    assert forall|k: int| 0 <= k < after.len() implies #[trigger] after[k].focuses@.len() == before[k].focuses@.len() by {
        assert(changed[k].focuses.len() == views[k].focuses.len());
    }
    assert forall|k: int, f: int|
        0 <= k < after.len() && 0 <= f < after[k].focuses@.len() implies #[trigger] after[k].focuses@[f].id
        == before[k].focuses@[f].id by {
        assert(changed[k].focuses[f].id == views[k].focuses[f].id);
    }
    assert(same_identifiers(after, before));
    lemma_same_tally(sessions, sessions.len() as int, range, rollover, after, before);
    lemma_same_sorted(after, before, category_tally(sessions, sessions.len() as int, range, rollover, before));
}

/// Whether `ranked` comes most work first, the older focus first between equals.
pub open spec fn rank_ordered(ranked: Seq<(Id, u64)>) -> bool {
    forall|i: int, j: int| 0 <= i < j < ranked.len() ==> rank_le(#[trigger] ranked[i], #[trigger] ranked[j])
}

proof fn lemma_rank_inserted(ranked: Seq<(Id, u64)>, entry: (Id, u64))
    requires
        rank_ordered(ranked),
    ensures
        rank_ordered(rank_inserted(ranked, entry)),
        rank_inserted(ranked, entry).to_multiset() =~= ranked.to_multiset().insert(entry),
    decreases ranked.len(),
{
    broadcast use vstd::seq_lib::group_to_multiset_ensures;

    if ranked.len() == 0 {
        assert(seq![entry] =~= Seq::<(Id, u64)>::empty().push(entry));
    } else if rank_le(ranked.last(), entry) {
        let r = ranked.push(entry);
        assert forall|i: int, j: int| 0 <= i < j < r.len() implies rank_le(#[trigger] r[i], #[trigger] r[j]) by {
            if j == ranked.len() && i < ranked.len() - 1 {
                assert(rank_le(ranked[i], ranked[ranked.len() - 1]));
            }
        }
    } else {
        let d = ranked.drop_last();
        let l = ranked.last();
        assert(rank_ordered(d));
        lemma_rank_inserted(d, entry);
        let inner = rank_inserted(d, entry);
        let r = inner.push(l);
        assert forall|i: int| 0 <= i < inner.len() implies rank_le(#[trigger] inner[i], l) by {
            assert(inner.to_multiset().count(inner[i]) > 0);
            if inner[i] != entry {
                assert(d.contains(inner[i]));
                let k = choose|k: int| 0 <= k < d.len() && d[k] == inner[i];
                assert(rank_le(ranked[k], ranked[ranked.len() - 1]));
            }
        }
        assert forall|i: int, j: int| 0 <= i < j < r.len() implies rank_le(#[trigger] r[i], #[trigger] r[j]) by {
            if j == inner.len() {
                assert(rank_le(inner[i], l));
            }
        }
        assert(ranked =~= d.push(l));
    }
}

/// The top focuses come most work first, the focus made first first between equals, and the
/// ranking holds every focus of the tally once, none lost: the top `n` are its first `n`.
pub proof fn law_the_top_focuses_come_most_work_first(tally: Seq<(Id, u64)>)
    ensures
        rank_ordered(ranked(tally)),
        ranked(tally).to_multiset() =~= tally.to_multiset(),
    decreases tally.len(),
{
    broadcast use vstd::seq_lib::group_to_multiset_ensures;

    if tally.len() > 0 {
        law_the_top_focuses_come_most_work_first(tally.drop_last());
        lemma_rank_inserted(ranked(tally.drop_last()), tally.last());
        assert(tally =~= tally.drop_last().push(tally.last()));
    }
}

/// Whether `shares` come in the order of the list by category.
pub open spec fn categories_ordered(categories: Seq<Category>, shares: Seq<(Option<Id>, Seq<u64>)>) -> bool {
    forall|i: int, j: int|
        0 <= i < j < shares.len() ==> category_le(categories, (#[trigger] shares[i]).0, (#[trigger] shares[j]).0)
}

proof fn lemma_category_inserted(
    categories: Seq<Category>,
    sorted: Seq<(Option<Id>, Seq<u64>)>,
    share: (Option<Id>, Seq<u64>),
)
    requires
        categories_ordered(categories, sorted),
    ensures
        categories_ordered(categories, category_inserted(categories, sorted, share)),
        category_inserted(categories, sorted, share).to_multiset() =~= sorted.to_multiset().insert(share),
    decreases sorted.len(),
{
    broadcast use vstd::seq_lib::group_to_multiset_ensures;

    if sorted.len() == 0 {
        assert(seq![share] =~= Seq::<(Option<Id>, Seq<u64>)>::empty().push(share));
    } else if category_le(categories, sorted.last().0, share.0) {
        let r = sorted.push(share);
        assert forall|i: int, j: int| 0 <= i < j < r.len() implies category_le(categories, (#[trigger] r[i]).0, (#[trigger] r[j]).0) by {
            if j == sorted.len() && i < sorted.len() - 1 {
                assert(category_le(categories, sorted[i].0, sorted[sorted.len() - 1].0));
            }
        }
    } else {
        let d = sorted.drop_last();
        let l = sorted.last();
        assert(categories_ordered(categories, d));
        lemma_category_inserted(categories, d, share);
        let inner = category_inserted(categories, d, share);
        let r = inner.push(l);
        assert forall|i: int| 0 <= i < inner.len() implies category_le(categories, (#[trigger] inner[i]).0, l.0) by {
            assert(inner.to_multiset().count(inner[i]) > 0);
            if inner[i] != share {
                assert(d.contains(inner[i]));
                let k = choose|k: int| 0 <= k < d.len() && d[k] == inner[i];
                assert(category_le(categories, sorted[k].0, sorted[sorted.len() - 1].0));
            }
        }
        assert forall|i: int, j: int| 0 <= i < j < r.len() implies category_le(categories, (#[trigger] r[i]).0, (#[trigger] r[j]).0) by {
            if j == inner.len() {
                assert(category_le(categories, inner[i].0, l.0));
            }
        }
        assert(sorted =~= d.push(l));
    }
}

/// The work by category comes in tone order, the older category first between equal tones and
/// sessions in no category last, and holds every category that had a session once, none lost.
pub proof fn law_the_work_by_category_comes_in_tone_order(
    categories: Seq<Category>,
    tally: Seq<(Option<Id>, Seq<u64>)>,
)
    ensures
        categories_ordered(categories, categories_sorted(categories, tally)),
        categories_sorted(categories, tally).to_multiset() =~= tally.to_multiset(),
    decreases tally.len(),
{
    broadcast use vstd::seq_lib::group_to_multiset_ensures;

    if tally.len() > 0 {
        law_the_work_by_category_comes_in_tone_order(categories, tally.drop_last());
        lemma_category_inserted(categories, categories_sorted(categories, tally.drop_last()), tally.last());
        assert(tally =~= tally.drop_last().push(tally.last()));
    }
}

/// The work of the sessions among the first `n` that count within `range`, added up as it is:
/// the seconds of their work spans, nothing else.
pub open spec fn plain_work_within(sessions: Seq<Session>, n: int, range: Range, rollover: TimeOfDay) -> int
    decreases n,
{
    if n <= 0 {
        0
    } else {
        plain_work_within(sessions, n - 1, range, rollover) + if slot_of(range, sessions[n - 1], rollover) is Some {
            work_of(sessions[n - 1].spans@)
        } else {
            0
        }
    }
}

/// Work is never negative.
pub proof fn lemma_work_of_nonnegative(spans: Seq<Span>)
    ensures
        work_of(spans) >= 0,
    decreases spans.len(),
{
    if spans.len() > 0 {
        lemma_work_of_nonnegative(spans.drop_last());
    }
}

/// The seconds [`session_count_and_mean`] divides by the count are the seconds of the work spans
/// of the sessions that count within the range, added up and held to a `u64`: breaks, gaps and
/// idle time add nothing.
pub proof fn law_the_mean_is_of_work_alone(sessions: Seq<Session>, n: int, range: Range, rollover: TimeOfDay)
    ensures
        work_within(sessions, n, range, rollover) == if plain_work_within(sessions, n, range, rollover) > u64::MAX {
            u64::MAX as int
        } else {
            plain_work_within(sessions, n, range, rollover)
        },
    decreases n,
{
    if n > 0 {
        law_the_mean_is_of_work_alone(sessions, n - 1, range, rollover);
        lemma_work_of_nonnegative(sessions[n - 1].spans@);
    }
}

/// A break adds no work: a span of any kind but work, put after a session's spans, leaves its
/// work as it was.
pub proof fn law_a_break_adds_no_work(spans: Seq<Span>, other: Span)
    requires
        other.kind != SpanKind::Work,
    ensures
        work_of(spans.push(other)) == work_of(spans),
{
    assert(spans.push(other).drop_last() =~= spans);
}

/// Sessions that start at the same moments in the same offsets and hold the same work give the
/// same count and the same mean, however their breaks and gaps differ.
pub proof fn law_only_work_moves_the_mean(a: Seq<Session>, b: Seq<Session>, n: int, range: Range, rollover: TimeOfDay)
    requires
        a.len() == b.len(),
        0 <= n <= a.len(),
        forall|k: int|
            0 <= k < a.len() ==> (#[trigger] a[k]).started == b[k].started && a[k].offset_minutes == b[k].offset_minutes
                && work_of(a[k].spans@) == work_of(b[k].spans@),
    ensures
        count_within(a, n, range, rollover) == count_within(b, n, range, rollover),
        work_within(a, n, range, rollover) == work_within(b, n, range, rollover),
    decreases n,
{
    if n > 0 {
        law_only_work_moves_the_mean(a, b, n - 1, range, rollover);
        assert(a[n - 1].started == b[n - 1].started);
    }
}

/// The work of the first `n` sessions under `category` that count on the day at place `d` of
/// `range`, held to a `u64`; a session whose focus is in no category counts under `None`.
pub open spec fn category_work_on(
    sessions: Seq<Session>,
    n: int,
    range: Range,
    rollover: TimeOfDay,
    categories: Seq<Category>,
    category: Option<Id>,
    d: int,
) -> u64
    decreases n,
{
    if n <= 0 {
        0
    } else {
        let before = category_work_on(sessions, n - 1, range, rollover, categories, category, d);
        if slot_of(range, sessions[n - 1], rollover) == Some(d) && owner_of(
            categories,
            categories.len() as int,
            sessions[n - 1].focus,
        ) == category {
            held_add(before, work_of(sessions[n - 1].spans@))
        } else {
            before
        }
    }
}

/// Where the first place from `k` on holding `category` is, when there is one.
proof fn lemma_category_at(tally: Seq<(Option<Id>, Seq<u64>)>, category: Option<Id>, k: int)
    requires
        0 <= k,
    ensures
        category_at(tally, category, k) == -1 ==> forall|j: int| k <= j < tally.len() ==> tally[j].0 != category,
        category_at(tally, category, k) != -1 ==> k <= category_at(tally, category, k) < tally.len() && tally[category_at(
            tally,
            category,
            k,
        )].0 == category,
    decreases tally.len() - k,
{
    if k < tally.len() && tally[k].0 != category {
        lemma_category_at(tally, category, k + 1);
    }
}

/// The day by day work the tally keeps of each category is the work of its own sessions on that
/// day: each category once, every day of the range there, and no work for a category it lacks.
proof fn lemma_tally_days(
    sessions: Seq<Session>,
    n: int,
    range: Range,
    rollover: TimeOfDay,
    categories: Seq<Category>,
)
    requires
        0 <= n <= sessions.len(),
        countable(sessions),
    ensures
        ({
            let t = category_tally(sessions, n, range, rollover, categories);
            &&& forall|i: int, j: int| 0 <= i < j < t.len() ==> #[trigger] t[i].0 != #[trigger] t[j].0
            &&& forall|j: int| 0 <= j < t.len() ==> (#[trigger] t[j]).1.len() == range.days
            &&& forall|j: int, d: int|
                0 <= j < t.len() && 0 <= d < range.days ==> #[trigger] t[j].1[d] == category_work_on(
                    sessions,
                    n,
                    range,
                    rollover,
                    categories,
                    t[j].0,
                    d,
                )
            &&& forall|c: Option<Id>, d: int|
                (forall|j: int| 0 <= j < t.len() ==> (#[trigger] t[j]).0 != c) ==> #[trigger] category_work_on(
                    sessions,
                    n,
                    range,
                    rollover,
                    categories,
                    c,
                    d,
                ) == 0
        }),
    decreases n,
{
    if n > 0 {
        lemma_tally_days(sessions, n - 1, range, rollover, categories);
        let before = category_tally(sessions, n - 1, range, rollover, categories);
        let t = category_tally(sessions, n, range, rollover, categories);
        let session = sessions[n - 1];
        assert(work_of(sessions[n - 1].spans@) <= u64::MAX);
        lemma_work_of_nonnegative(session.spans@);
        match slot_of(range, session, rollover) {
            Some(i) => {
                let owner = owner_of(categories, categories.len() as int, session.focus);
                lemma_category_at(before, owner, 0);
                let at = category_at(before, owner, 0);
                let work = work_of(session.spans@);
                assert(index_in(range, counted_day(session.started, session.offset_minutes, rollover)) == Some(i));
                assert(0 <= i < range.days);
                if at >= 0 {
                    assert forall|j: int, d: int| 0 <= j < t.len() && 0 <= d < range.days implies #[trigger] t[j].1[d]
                        == category_work_on(sessions, n, range, rollover, categories, t[j].0, d) by {
                        if j != at {
                            assert(t[j] == before[j]);
                        }
                    }
                    assert forall|c: Option<Id>, d: int|
                        (forall|j: int| 0 <= j < t.len() ==> (#[trigger] t[j]).0 != c) implies #[trigger] category_work_on(
                        sessions,
                        n,
                        range,
                        rollover,
                        categories,
                        c,
                        d,
                    ) == 0 by {
                        assert(t[at].0 == owner);
                        assert(owner != c);
                        assert forall|j: int| 0 <= j < before.len() implies (#[trigger] before[j]).0 != c by {
                            assert(t[j].0 == before[j].0);
                        }
                        assert(category_work_on(sessions, n - 1, range, rollover, categories, c, d) == 0);
                    }
                    assert forall|i2: int, j: int| 0 <= i2 < j < t.len() implies #[trigger] t[i2].0 != #[trigger] t[j].0 by {
                        assert(t[i2].0 == before[i2].0 && t[j].0 == before[j].0);
                    }
                } else {
                    let fresh = (owner, Seq::new(range.days as nat, |d: int| 0u64).update(i, work as u64));
                    assert(t == before.push(fresh));
                    assert forall|d: int| 0 <= d < range.days implies #[trigger] category_work_on(
                        sessions,
                        n - 1,
                        range,
                        rollover,
                        categories,
                        owner,
                        d,
                    ) == 0 by {
                        assert(forall|j: int| 0 <= j < before.len() ==> (#[trigger] before[j]).0 != owner);
                    }
                    assert forall|j: int, d: int| 0 <= j < t.len() && 0 <= d < range.days implies #[trigger] t[j].1[d]
                        == category_work_on(sessions, n, range, rollover, categories, t[j].0, d) by {
                        if j < before.len() {
                            assert(t[j] == before[j]);
                        } else {
                            assert(category_work_on(sessions, n - 1, range, rollover, categories, owner, d) == 0);
                        }
                    }
                    assert forall|c: Option<Id>, d: int|
                        (forall|j: int| 0 <= j < t.len() ==> (#[trigger] t[j]).0 != c) implies #[trigger] category_work_on(
                        sessions,
                        n,
                        range,
                        rollover,
                        categories,
                        c,
                        d,
                    ) == 0 by {
                        assert(t[before.len() as int].0 == owner);
                        assert(owner != c);
                        assert forall|j: int| 0 <= j < before.len() implies (#[trigger] before[j]).0 != c by {
                            assert(t[j] == before[j]);
                        }
                        assert(category_work_on(sessions, n - 1, range, rollover, categories, c, d) == 0);
                    }
                    assert forall|i2: int, j: int| 0 <= i2 < j < t.len() implies #[trigger] t[i2].0 != #[trigger] t[j].0 by {
                        if j == before.len() {
                            assert(t[i2] == before[i2]);
                        } else {
                            assert(t[i2] == before[i2] && t[j] == before[j]);
                        }
                    }
                }
            },
            None => {
                assert(t == before);
                assert forall|c: Option<Id>, d: int| #[trigger] category_work_on(sessions, n, range, rollover, categories, c, d)
                    == category_work_on(sessions, n - 1, range, rollover, categories, c, d) by {}
            },
        }
        assert forall|j: int| 0 <= j < t.len() implies (#[trigger] t[j]).1.len() == range.days by {
            if j < before.len() {
                assert(before[j].1.len() == range.days);
            }
        }
    }
}

/// What sorting the tally keeps: every share of the sorted list is one of the tally's.
proof fn lemma_sorted_members(categories: Seq<Category>, tally: Seq<(Option<Id>, Seq<u64>)>)
    ensures
        forall|j: int| 0 <= j < categories_sorted(categories, tally).len() ==> tally.contains(
            #[trigger] categories_sorted(categories, tally)[j],
        ),
    decreases tally.len(),
{
    if tally.len() > 0 {
        lemma_sorted_members(categories, tally.drop_last());
        lemma_inserted_members(categories, categories_sorted(categories, tally.drop_last()), tally.last());
        let s = categories_sorted(categories, tally);
        assert forall|j: int| 0 <= j < s.len() implies tally.contains(#[trigger] s[j]) by {
            let x = s[j];
            if x == tally.last() {
                assert(tally[tally.len() - 1] == x);
            } else {
                let before = categories_sorted(categories, tally.drop_last());
                let k = choose|k: int| 0 <= k < before.len() && before[k] == x;
                assert(tally.drop_last().contains(x));
                let m = choose|m: int| 0 <= m < tally.drop_last().len() && tally.drop_last()[m] == x;
                assert(tally[m] == x);
            }
        }
    }
}

/// Inserting a share keeps the shares that were there and adds that one, nothing else.
proof fn lemma_inserted_members(
    categories: Seq<Category>,
    sorted: Seq<(Option<Id>, Seq<u64>)>,
    share: (Option<Id>, Seq<u64>),
)
    ensures
        forall|j: int| 0 <= j < category_inserted(categories, sorted, share).len() ==> (#[trigger] category_inserted(
            categories,
            sorted,
            share,
        )[j] == share || sorted.contains(category_inserted(categories, sorted, share)[j])),
    decreases sorted.len(),
{
    if sorted.len() > 0 && !category_le(categories, sorted.last().0, share.0) {
        lemma_inserted_members(categories, sorted.drop_last(), share);
        let inner = category_inserted(categories, sorted.drop_last(), share);
        let s = inner.push(sorted.last());
        assert forall|j: int| 0 <= j < s.len() implies (#[trigger] s[j] == share || sorted.contains(s[j])) by {
            if j < inner.len() {
                assert(s[j] == inner[j]);
                if inner[j] != share {
                    let k = choose|k: int| 0 <= k < sorted.drop_last().len() && sorted.drop_last()[k] == inner[j];
                    assert(sorted[k] == inner[j]);
                }
            } else {
                assert(sorted[sorted.len() - 1] == s[j]);
            }
        }
    } else if sorted.len() > 0 {
        let s = sorted.push(share);
        assert forall|j: int| 0 <= j < s.len() implies (#[trigger] s[j] == share || sorted.contains(s[j])) by {
            if j < sorted.len() {
                assert(sorted[j] == s[j]);
            }
        }
    }
}

/// What the work by category gives for each day: every share the list holds has a day for each
/// day of the range, and on each the held sum of the work of the sessions of its own category
/// that count on that day, and of no others; a session adds its work to its own day alone.
pub proof fn law_each_category_s_work_falls_on_its_own_days(
    sessions: Seq<Session>,
    range: Range,
    rollover: TimeOfDay,
    categories: Seq<Category>,
)
    requires
        countable(sessions),
    ensures
        ({
            let shares = categories_sorted(categories, category_tally(sessions, sessions.len() as int, range, rollover, categories));
            forall|j: int, d: int|
                #![trigger shares[j].1[d]]
                0 <= j < shares.len() && 0 <= d < range.days ==> shares[j].1.len() == range.days
                    && shares[j].1[d] == category_work_on(sessions, sessions.len() as int, range, rollover, categories, shares[j].0, d)
        }),
{
    let t = category_tally(sessions, sessions.len() as int, range, rollover, categories);
    lemma_tally_days(sessions, sessions.len() as int, range, rollover, categories);
    lemma_sorted_members(categories, t);
    let shares = categories_sorted(categories, t);
    assert forall|j: int, d: int|
        #![trigger shares[j].1[d]]
        0 <= j < shares.len() && 0 <= d < range.days implies shares[j].1.len()
        == range.days && shares[j].1[d] == category_work_on(sessions, sessions.len() as int, range, rollover, categories, shares[j].0, d) by {
        assert(t.contains(shares[j]));
        let k = choose|k: int| 0 <= k < t.len() && t[k] == shares[j];
        assert(t[k].1[d] == category_work_on(sessions, sessions.len() as int, range, rollover, categories, t[k].0, d));
    }
}

/// The mean is the work shared out among the sessions that count: times their number it is at
/// most their work, added up and held to a `u64`, and one more second each would pass it; with no
/// session it is zero.
pub proof fn law_the_mean_shares_the_work_out(sessions: Seq<Session>, range: Range, rollover: TimeOfDay)
    ensures
        ({
            let (count, mean) = count_and_mean(sessions, range, rollover);
            let plain = plain_work_within(sessions, sessions.len() as int, range, rollover);
            let work = if plain > u64::MAX { u64::MAX as int } else { plain };
            &&& count == count_within(sessions, sessions.len() as int, range, rollover)
            &&& count > 0 ==> mean * count <= work < (mean + 1) * count
            &&& count == 0 ==> mean == 0 && work == 0
        }),
{
    let n = sessions.len() as int;
    law_the_mean_is_of_work_alone(sessions, n, range, rollover);
    let (count, mean) = count_and_mean(sessions, range, rollover);
    let w = work_within(sessions, n, range, rollover) as int;
    if count > 0 {
        assert(mean * count <= w < (mean + 1) * count) by (nonlinear_arith)
            requires
                count > 0,
                w >= 0,
                mean == w / count,
        ;
    } else {
        lemma_no_count_no_work(sessions, n, range, rollover);
    }
}

/// Where no session counts, no work does.
proof fn lemma_no_count_no_work(sessions: Seq<Session>, n: int, range: Range, rollover: TimeOfDay)
    requires
        count_within(sessions, n, range, rollover) == 0,
    ensures
        plain_work_within(sessions, n, range, rollover) == 0,
    decreases n,
{
    if n > 0 {
        lemma_no_count_no_work(sessions, n - 1, range, rollover);
    }
}

/// A session that does not count within the range changes neither the count nor the work; one
/// that does adds one to the count and its work to the work, held to a `u64`.
pub proof fn law_only_sessions_in_the_range_count(sessions: Seq<Session>, session: Session, range: Range, rollover: TimeOfDay)
    ensures
        slot_of(range, session, rollover) is None ==> count_and_mean(sessions.push(session), range, rollover)
            == count_and_mean(sessions, range, rollover),
        slot_of(range, session, rollover) is Some ==> count_and_mean(sessions.push(session), range, rollover).0
            == count_and_mean(sessions, range, rollover).0 + 1,
        slot_of(range, session, rollover) is Some ==> plain_work_within(
            sessions.push(session),
            sessions.len() + 1int,
            range,
            rollover,
        ) == plain_work_within(sessions, sessions.len() as int, range, rollover) + work_of(session.spans@),
{
    let longer = sessions.push(session);
    lemma_prefix_same(sessions, longer, sessions.len() as int, range, rollover);
}

/// Counting a sequence and a longer one that starts with it agrees over the shared start.
proof fn lemma_prefix_same(a: Seq<Session>, b: Seq<Session>, n: int, range: Range, rollover: TimeOfDay)
    requires
        0 <= n <= a.len(),
        n <= b.len(),
        forall|k: int| 0 <= k < n ==> a[k] == b[k],
    ensures
        count_within(a, n, range, rollover) == count_within(b, n, range, rollover),
        work_within(a, n, range, rollover) == work_within(b, n, range, rollover),
        plain_work_within(a, n, range, rollover) == plain_work_within(b, n, range, rollover),
    decreases n,
{
    if n > 0 {
        lemma_prefix_same(a, b, n - 1, range, rollover);
    }
}

/// Inserting a share keeps every share that was there and holds the new one.
proof fn lemma_inserted_keeps(
    categories: Seq<Category>,
    sorted: Seq<(Option<Id>, Seq<u64>)>,
    share: (Option<Id>, Seq<u64>),
)
    ensures
        category_inserted(categories, sorted, share).contains(share),
        forall|x: (Option<Id>, Seq<u64>)| sorted.contains(x) ==> #[trigger] category_inserted(categories, sorted, share).contains(x),
    decreases sorted.len(),
{
    let s = category_inserted(categories, sorted, share);
    if sorted.len() == 0 {
        assert(s[0] == share);
    } else if category_le(categories, sorted.last().0, share.0) {
        assert(s[sorted.len() as int] == share);
        assert forall|x: (Option<Id>, Seq<u64>)| sorted.contains(x) implies #[trigger] s.contains(x) by {
            let k = choose|k: int| 0 <= k < sorted.len() && sorted[k] == x;
            assert(s[k] == x);
        }
    } else {
        lemma_inserted_keeps(categories, sorted.drop_last(), share);
        let inner = category_inserted(categories, sorted.drop_last(), share);
        let k0 = choose|k: int| 0 <= k < inner.len() && inner[k] == share;
        assert(s[k0] == share);
        assert forall|x: (Option<Id>, Seq<u64>)| sorted.contains(x) implies #[trigger] s.contains(x) by {
            let k = choose|k: int| 0 <= k < sorted.len() && sorted[k] == x;
            if k == sorted.len() - 1 {
                assert(s[inner.len() as int] == x);
            } else {
                assert(sorted.drop_last().contains(x)) by {
                    assert(sorted.drop_last()[k] == x);
                }
                assert(category_inserted(categories, sorted.drop_last(), share).contains(x));
                let m = choose|m: int| 0 <= m < inner.len() && inner[m] == x;
                assert(s[m] == x);
            }
        }
    }
}

/// Sorting the tally loses no share.
proof fn lemma_sorted_keeps(categories: Seq<Category>, tally: Seq<(Option<Id>, Seq<u64>)>)
    ensures
        forall|x: (Option<Id>, Seq<u64>)| tally.contains(x) ==> #[trigger] categories_sorted(categories, tally).contains(x),
    decreases tally.len(),
{
    if tally.len() > 0 {
        lemma_sorted_keeps(categories, tally.drop_last());
        let before = categories_sorted(categories, tally.drop_last());
        lemma_inserted_keeps(categories, before, tally.last());
        assert forall|x: (Option<Id>, Seq<u64>)| tally.contains(x) implies #[trigger] categories_sorted(categories, tally).contains(x) by {
            let k = choose|k: int| 0 <= k < tally.len() && tally[k] == x;
            if k < tally.len() - 1 {
                assert(tally.drop_last()[k] == x);
                assert(tally.drop_last().contains(x));
            }
        }
    }
}

/// No category with work in the range is left out of the work by category: a category that has
/// work on some day of the range has a share.
pub proof fn law_every_category_with_work_has_a_share(
    sessions: Seq<Session>,
    range: Range,
    rollover: TimeOfDay,
    categories: Seq<Category>,
    category: Option<Id>,
    d: int,
)
    requires
        countable(sessions),
        category_work_on(sessions, sessions.len() as int, range, rollover, categories, category, d) > 0,
    ensures
        exists|j: int|
            0 <= j < categories_sorted(categories, category_tally(sessions, sessions.len() as int, range, rollover, categories)).len()
                && (#[trigger] categories_sorted(
                categories,
                category_tally(sessions, sessions.len() as int, range, rollover, categories),
            )[j]).0 == category,
{
    let t = category_tally(sessions, sessions.len() as int, range, rollover, categories);
    lemma_tally_days(sessions, sessions.len() as int, range, rollover, categories);
    lemma_sorted_keeps(categories, t);
    let k = choose|k: int| 0 <= k < t.len() && (#[trigger] t[k]).0 == category;
    assert(categories_sorted(categories, t).contains(t[k]));
    let shares = categories_sorted(categories, t);
    let j = choose|j: int| 0 <= j < shares.len() && shares[j] == t[k];
    assert(shares[j].0 == category);
}

} // verus!
