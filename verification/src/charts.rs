//! The Charts screen's state: which stretch is charted, and what is picked on it.
//!
//! A day is charted hour by hour, a week day by day, a month as the trend of its days and a year
//! as a grid of days. Choosing another scale forgets what was picked, since a pick means
//! something else on every scale.

use vstd::prelude::*;

use crate::calendar::{days_in_month, first_of_month, month_first, month_length, on_calendar, week_start, week_start_of};
use crate::prefs::Weekday;
use crate::stats::Range;

verus! {

/// How many weeks the year grid shows, today's the last.
pub const YEAR_WEEKS: i64 = 52;

/// Below this many columns the bars of a week lie down so their labels keep room.
pub const NARROW_BELOW: u16 = 56;

/// From this many columns on the twenty-four hours of a day stand side by side, each with two
/// cells for its label; below it only the hours that hold work are drawn, lying down.
pub const HOURS_STAND_FROM: u16 = 72;

/// How wide a stretch the charts cover.
#[derive(Debug, Clone, Copy, PartialEq, Eq, Structural)]
pub enum Scale {
    /// Today, hour by hour.
    Day,
    /// This week, day by day, stacked by category.
    Week,
    /// This month: the trend of its days and the focuses worked on most.
    Month,
    /// The last year as a grid of days.
    Year,
}

/// The scale at `index` of the chooser; out of range is the first.
pub open spec fn scale_at(index: int) -> Scale {
    if index == 1 {
        Scale::Week
    } else if index == 2 {
        Scale::Month
    } else if index == 3 {
        Scale::Year
    } else {
        Scale::Day
    }
}

/// Where a scale sits in the chooser.
pub open spec fn scale_index(scale: Scale) -> int {
    match scale {
        Scale::Day => 0,
        Scale::Week => 1,
        Scale::Month => 2,
        Scale::Year => 3,
    }
}

impl Scale {
    /// The scale at `index` of the chooser; out of range is the first.
    pub fn from_index(index: usize) -> (scale: Self)
        ensures
            scale == scale_at(index as int),
    {
        match index {
            1 => Scale::Week,
            2 => Scale::Month,
            3 => Scale::Year,
            _ => Scale::Day,
        }
    }

    /// Where this scale sits in the chooser.
    pub fn index(self) -> (index: usize)
        ensures
            index == scale_index(self),
    {
        match self {
            Scale::Day => 0,
            Scale::Week => 1,
            Scale::Month => 2,
            Scale::Year => 3,
        }
    }

    /// The word for the scale in the locale keys.
    pub fn key(self) -> (word: &'static str)
        ensures
            word@ == match self {
                Scale::Day => "day"@,
                Scale::Week => "week"@,
                Scale::Month => "month"@,
                Scale::Year => "year"@,
            },
    {
        match self {
            Scale::Day => "day",
            Scale::Week => "week",
            Scale::Month => "month",
            Scale::Year => "year",
        }
    }

    /// The days this scale covers, ending today, with weeks starting on `week_first`.
    ///
    /// A week runs from its first day to its last, so the days still to come stand empty beside
    /// the ones lived; a month runs from its first day to today; a year is the last 52 weeks
    /// with today in the last one.
    pub fn range(self, today: i64, week_first: Weekday) -> (range: Range)
        requires
            on_calendar(today as int - 400),
            on_calendar(today as int),
        ensures
            range == scale_span(self, today, week_first),
    {
        match self {
            Scale::Day => Range::day(today),
            Scale::Week => Range::new(week_start(today, week_first), 7),
            Scale::Month => {
                let first = first_of_month(today);
                Range::new(first, (today - first + 1) as usize)
            },
            Scale::Year => {
                let from = week_start(today, week_first) - (YEAR_WEEKS - 1) * 7;
                Range::new(from, (today - from + 1) as usize)
            },
        }
    }

    /// The stretch this one is compared with: the whole day, week, month or year before it.
    pub fn previous(self, today: i64, week_first: Weekday) -> (range: Range)
        requires
            on_calendar(today as int - 400),
            on_calendar(today as int),
        ensures
            range == scale_before(self, today, week_first),
    {
        match self {
            Scale::Month => {
                let day_before = first_of_month(today) - 1;
                Range::new(first_of_month(day_before), days_in_month(day_before) as usize)
            },
            _ => self.range(today, week_first).previous(),
        }
    }
}

/// The days `scale` covers, ending on the day `today`, with weeks starting on `week_first`.
pub open spec fn scale_span(scale: Scale, today: i64, week_first: Weekday) -> Range {
    match scale {
        Scale::Day => Range { from: today, days: 1 },
        Scale::Week => Range { from: week_start_of(today as int, week_first) as i64, days: 7 },
        Scale::Month => Range { from: month_first(today), days: (today - month_first(today) + 1) as usize },
        Scale::Year => {
            let from = week_start_of(today as int, week_first) - (YEAR_WEEKS - 1) * 7;
            Range { from: from as i64, days: (today - from + 1) as usize }
        },
    }
}

/// The stretch `scale` is compared with: for a month the whole calendar month before, else the
/// stretch of the same length that ends where [`scale_span`] starts.
pub open spec fn scale_before(scale: Scale, today: i64, week_first: Weekday) -> Range {
    match scale {
        Scale::Month => {
            let day_before = (month_first(today) - 1) as i64;
            Range { from: month_first(day_before), days: month_length(day_before) as usize }
        },
        _ => {
            let span = scale_span(scale, today, week_first);
            Range {
                from: crate::arith::clamp_i64(span.from - span.days) as i64,
                days: span.days,
            }
        },
    }
}

/// Something that happened on the screen.
#[derive(Debug, Clone, Copy, PartialEq, Eq)]
pub enum Msg {
    /// A scale was chosen.
    Scale(usize),
    /// A bar or a day was picked: an hour of the day, a day of the week, a day of the year.
    Select(usize),
    /// A day of the month is being read off the trend, or reading stopped.
    Read(Option<usize>),
}

/// The state of the screen.
#[derive(Debug, Clone, Copy, PartialEq, Eq, Structural)]
pub struct Charts {
    /// The scale shown.
    pub scale: Scale,
    /// What is picked on the current scale: the hour, the day of the week, the day of the month,
    /// or the day of the year, counted from the start of the stretch.
    pub selected: Option<usize>,
}

/// What `msg` does to the screen, and whether the keyboard goes to the chart: it does when a
/// scale is chosen, whether the chooser was clicked or keyed.
pub open spec fn charts_updated(screen: Charts, msg: Msg) -> (Charts, bool) {
    match msg {
        Msg::Scale(index) => if scale_at(index as int) != screen.scale {
            (Charts { scale: scale_at(index as int), selected: None }, true)
        } else {
            (screen, true)
        },
        Msg::Select(index) => (Charts { selected: Some(index), ..screen }, false),
        Msg::Read(index) => (Charts { selected: index, ..screen }, false),
    }
}

impl Charts {
    /// The screen on the day, nothing picked.
    pub fn new() -> (screen: Self)
        ensures
            screen == (Charts { scale: Scale::Day, selected: None }),
    {
        Charts { scale: Scale::Day, selected: None }
    }

    /// The scale shown.
    pub fn scale(&self) -> (scale: Scale)
        ensures
            scale == self.scale,
    {
        self.scale
    }

    /// Whether the bars of the current scale lie down at `width` columns, so the up and down
    /// keys pick among them rather than left and right: the day below 72 columns, the week below
    /// 56.
    pub fn bars_lie_down(&self, width: u16) -> (down: bool)
        ensures
            down == match self.scale {
                Scale::Day => width < HOURS_STAND_FROM,
                Scale::Week => width < NARROW_BELOW,
                Scale::Month | Scale::Year => false,
            },
    {
        match self.scale {
            Scale::Day => width < HOURS_STAND_FROM,
            Scale::Week => width < NARROW_BELOW,
            Scale::Month | Scale::Year => false,
        }
    }

    /// What is picked on the current scale, counted from the start of the stretch.
    pub fn selected(&self) -> (selected: Option<usize>)
        ensures
            selected == self.selected,
    {
        self.selected
    }
}

/// Applies `msg` to the screen; `true` when the keyboard goes to the chart of the scale shown.
pub fn update(screen: &mut Charts, msg: Msg) -> (focus_chart: bool)
    ensures
        *final(screen) == charts_updated(*old(screen), msg).0,
        focus_chart == charts_updated(*old(screen), msg).1,
{
    match msg {
        Msg::Scale(index) => {
            let scale = Scale::from_index(index);
            if scale != screen.scale {
                screen.scale = scale;
                screen.selected = None;
            }
            true
        },
        Msg::Select(index) => {
            screen.selected = Some(index);
            false
        },
        Msg::Read(index) => {
            screen.selected = index;
            false
        },
    }
}

/// `seconds` in tenths of an hour, rounded up so a minute of work is seen, at most the largest
/// `u32`: the number a chart writes beside a stack, once divided by ten.
pub open spec fn tenths_of_hours(seconds: int) -> int {
    let tenths = (seconds * 10 + 3_599) / 3_600;
    if tenths > u32::MAX {
        u32::MAX as int
    } else {
        tenths
    }
}

/// `seconds` in tenths of an hour, rounded up, at most the largest `u32`.
pub fn hour_tenths(seconds: u64) -> (tenths: u64)
    requires
        seconds <= u64::MAX / 10,
    ensures
        tenths == tenths_of_hours(seconds as int),
{
    let scaled = seconds * 10;
    let tenths = scaled / 3_600 + if scaled % 3_600 > 0 { 1 } else { 0 };
    assert(tenths == (scaled + 3_599) / 3_600) by (nonlinear_arith)
        requires
            tenths == scaled / 3_600 + if scaled % 3_600 > 0 { 1int } else { 0int },
            scaled >= 0,
    ;
    if tenths > u32::MAX as u64 {
        u32::MAX as u64
    } else {
        tenths
    }
}

/// The pick is forgotten exactly when another scale is chosen: choosing the scale shown keeps
/// it, and whatever scale is chosen the keyboard goes to its chart.
pub proof fn law_choosing_a_scale_forgets_the_pick(screen: Charts, index: usize)
    ensures
        charts_updated(screen, Msg::Scale(index)).0.scale == scale_at(index as int),
        charts_updated(screen, Msg::Scale(index)).1,
        charts_updated(screen, Msg::Scale(index)).0.selected == if scale_at(index as int) == screen.scale {
            screen.selected
        } else {
            None
        },
{
}

} // verus!
