//! The running timer: a state machine fed clock readings from outside.
//!
//! Nothing in here reads a clock. Every reading arrives as a [`Clocks`] value, so a sleep, a
//! clock jump or a starved process can be replayed in a test exactly as it would happen on a
//! machine. Three clocks do three jobs: the clock that stops in sleep measures work, the clock
//! that keeps going in sleep measures the session and the sleep inside it, and the wall clock
//! only stamps the record. The wall clock never shortens a session: a time daemon stepping the
//! clock back ninety seconds would otherwise erase ninety seconds someone really worked.

use vstd::prelude::*;

use crate::arith::{add_i64, clamp_i64, sub_i64};
use crate::id::Id;
use crate::session::edit::without;
use crate::session::{Flag, Session, SessionView, Source};
use crate::span::{ClockSource, Span, SpanKind, end_of, holds_together, sleep_on_mono, start_of, work_of};

verus! {

/// The tick interval when none is set, in seconds.
pub const DEFAULT_TICK: u32 = 1;

/// The most the wall clock may drift from the session clock between two ticks before the record
/// is flagged, in seconds.
pub const CLOCK_DRIFT: i64 = 5;

/// The least a tick may be late before the lateness is treated as sleep, in seconds. The threshold
/// is `max(LAG_FLOOR, 3 × tick)`, so a slow tick does not trip it.
pub const LAG_FLOOR: u32 = 5;

/// Nanoseconds in a second.
pub const NANOS: u128 = 1_000_000_000;

/// Both monotonic clocks read at one moment, in nanoseconds since the machine booted.
#[derive(Debug, Clone, Copy, PartialEq, Eq, Structural)]
pub struct Uptime {
    /// Time the machine was awake: the clock that stops while it sleeps.
    pub awake: u128,
    /// Time since boot, sleep included: the clock that keeps counting while it sleeps.
    pub elapsed: u128,
}

/// `a - b`, or zero when `b` is larger.
pub open spec fn minus(a: int, b: int) -> int {
    if a > b {
        a - b
    } else {
        0
    }
}

/// What [`Uptime::suspended_since`] gives: what the clock that counts sleep counted since
/// `earlier` and the awake clock did not.
pub open spec fn suspended(now: Uptime, earlier: Uptime) -> int {
    minus(minus(now.elapsed as int, earlier.elapsed as int), minus(now.awake as int, earlier.awake as int))
}

/// Whole seconds in `nanos`, at most the largest span.
pub open spec fn whole(nanos: int) -> int {
    if nanos / NANOS as int > u32::MAX {
        u32::MAX as int
    } else {
        nanos / NANOS as int
    }
}

/// `a + b`, at most the largest span.
pub open spec fn add_u32(a: int, b: int) -> int {
    if a + b > u32::MAX {
        u32::MAX as int
    } else {
        a + b
    }
}

impl Uptime {
    /// Time the machine spent asleep between `earlier` and this reading: what the clock that
    /// counts sleep counted and the awake clock did not. Readings in the wrong order report none.
    pub fn suspended_since(&self, earlier: &Self) -> (nanos: u128)
        ensures
            nanos == suspended(*self, *earlier),
    {
        let elapsed = self.elapsed.saturating_sub(earlier.elapsed);
        let awake = self.awake.saturating_sub(earlier.awake);
        elapsed.saturating_sub(awake)
    }
}

/// Whether the readings of this platform tell sleep apart, as the framework says. It depends on
/// the platform the program runs on, so nothing is promised of it.
#[verifier::external_body]
pub fn platform_detects_suspend() -> bool {
    qframe::uptime::Uptime::detects_suspend()
}

/// What the person said about a stretch of silence.
#[derive(Debug, Clone, Copy, PartialEq, Eq, Structural)]
pub enum IdleDecision {
    /// It was work after all.
    Count,
    /// It was not work; it stays out of the net time.
    DontCount,
    /// It was a break.
    Break,
}

/// The kind the idle spans of a silence become once the person said what it was.
pub open spec fn decided_kind(decision: IdleDecision) -> SpanKind {
    match decision {
        IdleDecision::Count => SpanKind::Work,
        IdleDecision::DontCount => SpanKind::Idle,
        IdleDecision::Break => SpanKind::Pause,
    }
}

impl IdleDecision {
    /// The kind the idle spans become.
    pub fn kind(self) -> (kind: SpanKind)
        ensures
            kind == decided_kind(self),
    {
        match self {
            Self::Count => SpanKind::Work,
            Self::DontCount => SpanKind::Idle,
            Self::Break => SpanKind::Pause,
        }
    }
}

/// The three clocks read at one moment.
#[derive(Debug, Clone, Copy, PartialEq, Eq, Structural)]
pub struct Clocks {
    /// Seconds since the Unix epoch on the wall clock.
    pub wall: i64,
    /// Both monotonic clocks.
    pub uptime: Uptime,
}

/// Something a tick found out that the screen may want to say.
#[derive(Debug, Clone, Copy, PartialEq, Eq, Structural)]
pub enum Notice {
    /// The machine slept for this many seconds since the last tick; the sleep was recorded as
    /// the kind that was being measured, which is given.
    Suspended(u32, SpanKind),
    /// The wall clock moved by this many seconds more (or, negative, less) than the session
    /// clock since the last tick.
    ClockJump(i64),
    /// The work in this session has passed the ceiling.
    OverCeiling,
    /// The tick came this many seconds later than expected on a platform that cannot tell sleep
    /// apart; the lateness was recorded as sleep, of the kind given, as [`Notice::Suspended`] is.
    Lagged(u32, SpanKind),
}

/// `spans` with `span` after them: the last one grown instead when it is of the same kind and
/// clock and ends where `span` starts; nothing for an empty span.
pub open spec fn merged(spans: Seq<Span>, span: Span) -> Seq<Span> {
    if span.seconds == 0 {
        spans
    } else if spans.len() > 0 && spans.last().kind == span.kind && spans.last().clock == span.clock && end_of(
        spans.last(),
    ) == span.offset {
        spans.drop_last().push(Span { seconds: add_u32(spans.last().seconds as int, span.seconds as int) as u32, ..spans.last() })
    } else {
        spans.push(span)
    }
}

/// `spans` merged one after another, from nothing.
pub open spec fn merged_all(spans: Seq<Span>) -> Seq<Span>
    decreases spans.len(),
{
    if spans.len() == 0 {
        spans
    } else {
        merged(merged_all(spans.drop_last()), spans.last())
    }
}

/// Whether `flags` hold `flag`.
pub open spec fn has_flag(flags: Seq<Flag>, flag: Flag) -> bool {
    exists|i: int| 0 <= i < flags.len() && flags[i] == flag
}

/// `flags` with `flag` added unless it is there.
pub open spec fn flagged(flags: Seq<Flag>, flag: Flag) -> Seq<Flag> {
    if has_flag(flags, flag) {
        flags
    } else {
        flags.push(flag)
    }
}

/// `flags` with every one of `more` added in turn, each once.
pub open spec fn flagged_all(flags: Seq<Flag>, more: Seq<Flag>) -> Seq<Flag>
    decreases more.len(),
{
    if more.len() == 0 {
        flags
    } else {
        flagged(flagged_all(flags, more.drop_last()), more.last())
    }
}

/// The spans that come of re-kinding one closed span: every part of kind `was` at or after
/// `from` becomes `becomes`, a span measured through a sleep left alone unless `through_sleep`.
pub open spec fn rekinded_span(spans: Seq<Span>, span: Span, from: u32, was: SpanKind, becomes: SpanKind, through_sleep: bool) -> Seq<Span> {
    let untouched = span.clock == ClockSource::Boot && !through_sleep;
    if span.kind != was || untouched || end_of(span) <= from {
        merged(spans, span)
    } else if span.offset >= from {
        merged(spans, Span { kind: becomes, ..span })
    } else {
        let before = (from - span.offset) as u32;
        merged(
            merged(spans, Span { kind: was, seconds: before, ..span }),
            Span { kind: becomes, offset: from, seconds: (span.seconds - before) as u32, ..span },
        )
    }
}

/// `spans` re-kinded from `from` on, one span after another.
pub open spec fn rekinded(spans: Seq<Span>, from: u32, was: SpanKind, becomes: SpanKind, through_sleep: bool) -> Seq<Span>
    decreases spans.len(),
{
    if spans.len() == 0 {
        spans
    } else {
        rekinded_span(rekinded(spans.drop_last(), from, was, becomes, through_sleep), spans.last(), from, was, becomes, through_sleep)
    }
}

/// A timer as the values it holds.
pub struct TimerView {
    pub focus: Id,
    pub started: i64,
    pub offset_minutes: i16,
    /// Spans that are finished.
    pub closed: Seq<Span>,
    /// The kind being measured now.
    pub open_kind: SpanKind,
    /// The session offset the open span began at.
    pub open_from: u32,
    /// The reading the session offset is counted from.
    pub origin: Uptime,
    /// The session offset at the origin.
    pub base: u32,
    /// The last reading and its session offset.
    pub last: Clocks,
    pub last_offset: u32,
    pub paused: bool,
    pub idle_from: Option<u32>,
    pub away: bool,
    pub flags: Seq<Flag>,
    pub ceiling: u32,
    pub tick: u32,
    pub detects_suspend: bool,
    pub source: Source,
}

/// The session offset of the reading `now`: counted from the origin, never before the last one.
pub open spec fn offset_at(v: TimerView, now: Clocks) -> u32 {
    let counted = add_u32(v.base as int, whole(minus(now.uptime.elapsed as int, v.origin.elapsed as int)));
    if counted > v.last_offset { counted as u32 } else { v.last_offset }
}

/// Every span up to `now`: the closed ones and the open one grown to `now`.
pub open spec fn spans_at(v: TimerView, now: Clocks) -> Seq<Span> {
    merged(
        v.closed,
        Span { kind: v.open_kind, offset: v.open_from, seconds: (offset_at(v, now) - v.open_from) as u32, clock: ClockSource::Mono },
    )
}

/// The timer with the open span closed at `to` and a new one of the same kind opened there.
pub open spec fn closed_at(v: TimerView, kind: SpanKind, from: u32, to: u32) -> TimerView {
    TimerView {
        closed: merged(v.closed, Span { kind, offset: from, seconds: minus(to as int, from as int) as u32, clock: ClockSource::Mono }),
        open_kind: kind,
        open_from: to,
        ..v
    }
}

/// The timer with the open span closed at the last reading and one of `kind` opened there.
pub open spec fn switched(v: TimerView, kind: SpanKind) -> TimerView {
    TimerView { open_kind: kind, ..closed_at(v, v.open_kind, v.open_from, v.last_offset) }
}

/// Seconds the tick at `now` takes to have been slept, before it is held to the step: the sleep
/// the clocks tell, or on a platform that cannot tell it, a lateness past the threshold.
pub open spec fn slept(v: TimerView, now: Clocks) -> int {
    if v.detects_suspend {
        whole(suspended(now.uptime, v.last.uptime))
    } else {
        let awake = whole(minus(now.uptime.awake as int, v.last.uptime.awake as int));
        let threshold = if LAG_FLOOR > 3 * v.tick { LAG_FLOOR as int } else { 3 * v.tick };
        if awake > threshold { minus(awake, v.tick as int) } else { 0 }
    }
}

/// How far the wall clock moved beyond the session clock over the tick at `now`.
pub open spec fn drift(v: TimerView, now: Clocks) -> int {
    clamp_i64(clamp_i64(now.wall - v.last.wall) - (offset_at(v, now) - v.last_offset))
}

/// The timer after the sleep of the tick at `now` is recorded, before anything else.
pub open spec fn after_sleep(v: TimerView, now: Clocks) -> TimerView {
    let step = offset_at(v, now) - v.last_offset;
    let asleep = if slept(v, now) < step { slept(v, now) } else { step };
    if asleep > 0 {
        let c = closed_at(v, v.open_kind, v.open_from, v.last_offset);
        TimerView {
            closed: merged(c.closed, Span { kind: v.open_kind, offset: v.last_offset, seconds: asleep as u32, clock: ClockSource::Boot }),
            open_kind: v.open_kind,
            open_from: (v.last_offset + asleep) as u32,
            ..c
        }
    } else {
        v
    }
}

/// The timer after the tick at `now`, the ceiling not yet looked at.
pub open spec fn before_ceiling(v: TimerView, now: Clocks) -> TimerView {
    let s = after_sleep(v, now);
    let d = drift(v, now);
    TimerView {
        last: now,
        last_offset: offset_at(v, now),
        flags: if d > CLOCK_DRIFT || d < -CLOCK_DRIFT { flagged(s.flags, Flag::SuspectClock) } else { s.flags },
        ..s
    }
}

/// Whether the work at `now` passes the ceiling for the first time.
pub open spec fn passes_ceiling(v: TimerView, now: Clocks) -> bool {
    let b = before_ceiling(v, now);
    work_of(spans_at(b, now)) > b.ceiling && !has_flag(b.flags, Flag::OverCeiling)
}

/// The timer after the tick at `now`.
pub open spec fn ticked(v: TimerView, now: Clocks) -> TimerView {
    let b = before_ceiling(v, now);
    if passes_ceiling(v, now) {
        TimerView { flags: b.flags.push(Flag::OverCeiling), ..b }
    } else {
        b
    }
}

/// What the tick at `now` reports, in order.
pub open spec fn tick_notices(v: TimerView, now: Clocks) -> Seq<Notice> {
    let sleep_notice = if slept(v, now) <= 0 {
        Seq::empty()
    } else if v.detects_suspend {
        seq![Notice::Suspended(slept(v, now) as u32, v.open_kind)]
    } else {
        seq![Notice::Lagged(slept(v, now) as u32, v.open_kind)]
    };
    let d = drift(v, now);
    let jump = if d > CLOCK_DRIFT || d < -CLOCK_DRIFT { seq![Notice::ClockJump(d as i64)] } else { Seq::empty() };
    let ceiling = if passes_ceiling(v, now) { seq![Notice::OverCeiling] } else { Seq::empty() };
    sleep_notice + jump + ceiling
}

/// The timer after the silence of `seconds_ago` seconds, noticed at its last reading, is
/// recorded.
pub open spec fn idled(v: TimerView, seconds_ago: u32) -> TimerView {
    if v.paused || v.away {
        v
    } else {
        let from = minus(v.last_offset as int, seconds_ago as int) as u32;
        let closed = rekinded(v.closed, from, SpanKind::Work, SpanKind::Idle, false);
        let c = if from > v.open_from {
            merged(closed, Span { kind: SpanKind::Work, offset: v.open_from, seconds: (from - v.open_from) as u32, clock: ClockSource::Mono })
        } else {
            closed
        };
        TimerView {
            closed: c,
            open_kind: SpanKind::Idle,
            open_from: if v.open_from > from { v.open_from } else { from },
            idle_from: Some(from),
            away: true,
            flags: flagged(v.flags, Flag::UnclaimedIdle),
            ..v
        }
    }
}

/// The timer after input came back, at its last reading.
pub open spec fn back(v: TimerView) -> TimerView {
    if v.away {
        TimerView { away: false, ..switched(v, SpanKind::Work) }
    } else {
        v
    }
}

/// Whether any span of `spans` is idle.
pub open spec fn has_idle(spans: Seq<Span>) -> bool {
    exists|i: int| 0 <= i < spans.len() && spans[i].kind == SpanKind::Idle
}

/// The timer after the person said what the latest silence was.
pub open spec fn claimed(v: TimerView, decision: IdleDecision) -> TimerView {
    match v.idle_from {
        None => v,
        Some(from) => {
            let closed = rekinded(v.closed, from, SpanKind::Idle, decided_kind(decision), true);
            TimerView {
                closed,
                idle_from: None,
                flags: if has_idle(closed) { v.flags } else { without(v.flags, Flag::UnclaimedIdle) },
                ..v
            }
        },
    }
}

/// Seconds of the idle spans of `spans` that start at or after `from`, at most the largest
/// span.
pub open spec fn idle_total(spans: Seq<Span>, from: u32) -> int
    decreases spans.len(),
{
    if spans.len() == 0 {
        0
    } else {
        let last = spans.last();
        let rest = idle_total(spans.drop_last(), from);
        if last.kind == SpanKind::Idle && last.offset >= from {
            add_u32(rest, last.seconds as int)
        } else {
            rest
        }
    }
}

/// The timer after a break starts at its last reading; nothing changes while already paused.
pub open spec fn paused_at(v: TimerView) -> TimerView {
    if v.paused {
        v
    } else {
        TimerView { paused: true, ..switched(v, SpanKind::Pause) }
    }
}

/// The timer after a break ends at its last reading; nothing changes while not paused.
pub open spec fn resumed_at(v: TimerView) -> TimerView {
    if v.paused {
        TimerView { paused: false, ..switched(v, SpanKind::Work) }
    } else {
        v
    }
}

/// `value` when it fits in a `u32` and is not negative, else zero.
pub open spec fn fits_or_zero(value: int) -> int {
    if 0 <= value && value <= u32::MAX {
        value
    } else {
        0
    }
}

/// Where the spans a running file holds end, as a session offset: zero for none, and at most the
/// largest span.
pub open spec fn restored_end(closed: Seq<Span>) -> int {
    if closed.len() == 0 {
        0
    } else if end_of(closed.last()) > u32::MAX {
        u32::MAX as int
    } else {
        end_of(closed.last())
    }
}

/// The spans of a timer restored from `spans` written up to `refreshed`, alive until `until`,
/// at the wall second `wall`, with the offset it carries on from.
pub open spec fn restored(spans: Seq<Span>, paused: bool, refreshed: i64, until: i64, wall: i64) -> (Seq<Span>, u32) {
    let kind = if paused { SpanKind::Pause } else { SpanKind::Work };
    let kept = merged_all(spans);
    let end = restored_end(kept) as u32;
    let until = if until > refreshed { until } else { refreshed };
    let reached = if until < wall { until } else { wall };
    let alive = fits_or_zero(clamp_i64(reached - refreshed)) as u32;
    let with_alive = merged(kept, Span { kind, offset: end, seconds: alive, clock: ClockSource::Wall });
    let end = add_u32(end as int, alive as int) as u32;
    let unseen = fits_or_zero(clamp_i64(wall - until)) as u32;
    let all = merged(with_alive, Span { kind: SpanKind::Gap, offset: end, seconds: unseen, clock: ClockSource::Wall });
    (all, add_u32(end as int, unseen as int) as u32)
}

/// A timer carried on at the reading `now` from the spans a running file holds, written up to
/// `refreshed` and alive until `until`, on a platform that tells a suspend or not.
pub open spec fn restored_timer(
    focus: Id,
    started: i64,
    offset_minutes: i16,
    spans: Seq<Span>,
    paused: bool,
    refreshed: i64,
    until: i64,
    now: Clocks,
    detects_suspend: bool,
) -> TimerView {
    TimerView {
        focus,
        started,
        offset_minutes,
        closed: restored(spans, paused, refreshed, until, now.wall).0,
        open_kind: if paused { SpanKind::Pause } else { SpanKind::Work },
        open_from: restored(spans, paused, refreshed, until, now.wall).1,
        origin: now.uptime,
        base: restored(spans, paused, refreshed, until, now.wall).1,
        last: now,
        last_offset: restored(spans, paused, refreshed, until, now.wall).1,
        paused,
        idle_from: None,
        away: false,
        flags: Seq::empty(),
        ceiling: Timer::DEFAULT_CEILING,
        tick: DEFAULT_TICK,
        detects_suspend,
        source: Source::Recovered,
    }
}

/// Whether the timer's spans fit together: the closed ones fill the session up to where the
/// open one begins, and nothing is a sleep measured by the monotonic clock. A timer started
/// here always is; one restored from a file is when the file's spans were.
pub open spec fn consistent(v: TimerView) -> bool {
    holds_together(v.closed, v.open_from as int) && v.open_kind != SpanKind::Gap
}

/// A session being measured.
///
/// Spans are kept as a closed list plus one open span that grows until the next reading. The
/// session offset of every reading is counted from one origin reading, not by adding up tick
/// deltas, so rounding never opens a hole between spans.
#[derive(Debug, Clone)]
pub struct Timer {
    focus: Id,
    started: i64,
    offset_minutes: i16,
    /// Spans that are finished, adjacent same-kind spans merged.
    closed: Vec<Span>,
    /// What is being measured now.
    open_kind: SpanKind,
    /// The session offset the open span began at.
    open_from: u32,
    /// The reading the session offset is counted from.
    origin: Uptime,
    /// The session offset at `origin`; zero unless the timer was restored.
    base: u32,
    /// The last reading seen and its session offset.
    last: Clocks,
    last_offset: u32,
    paused: bool,
    /// Where the latest stretch of silence began, while it is being measured or waits for the
    /// person to say what it was; every idle span from there on belongs to it.
    idle_from: Option<u32>,
    /// Whether the silence is still going on, so the open span is idle.
    away: bool,
    flags: Vec<Flag>,
    ceiling: u32,
    tick: u32,
    detects_suspend: bool,
    source: Source,
}

impl View for Timer {
    type V = TimerView;

    closed spec fn view(&self) -> TimerView {
        TimerView {
            focus: self.focus,
            started: self.started,
            offset_minutes: self.offset_minutes,
            closed: self.closed@,
            open_kind: self.open_kind,
            open_from: self.open_from,
            origin: self.origin,
            base: self.base,
            last: self.last,
            last_offset: self.last_offset,
            paused: self.paused,
            idle_from: self.idle_from,
            away: self.away,
            flags: self.flags@,
            ceiling: self.ceiling,
            tick: self.tick,
            detects_suspend: self.detects_suspend,
            source: self.source,
        }
    }
}

/// The record a timer makes when it is stopped at `now` as `id`, written at `written`: the spans
/// up to the reading, ending where the elapsed time does, with no note yet.
pub open spec fn stopped(v: TimerView, now: Clocks, id: Id, written: i64) -> SessionView {
    SessionView {
        id,
        revision: 1,
        written,
        focus: v.focus,
        started: v.started,
        offset_minutes: v.offset_minutes,
        ended: clamp_i64(v.started + offset_at(ticked(v, now), now)) as i64,
        spans: spans_at(ticked(v, now), now),
        source: v.source,
        replaces: None,
        voids: None,
        continues: None,
        flags: ticked(v, now).flags,
        note: Seq::empty(),
    }
}

/// What holds of every timer: the open span begins no later than the last reading, and the tick
/// interval is at least a second.
pub open spec fn well_formed(v: TimerView) -> bool {
    v.open_from <= v.last_offset && v.tick >= 1
}

impl Timer {
    /// The ceiling a session is flagged over when none is set: twelve hours.
    pub const DEFAULT_CEILING: u32 = 43_200;

    /// What holds of every timer.
    pub open spec fn wf(&self) -> bool {
        well_formed(self@)
    }

    /// Starts measuring `focus` at the reading `now`, stamping it in an offset of
    /// `offset_minutes` from UTC.
    pub fn start(focus: Id, now: Clocks, offset_minutes: i16) -> (timer: Self)
        ensures
            timer.wf(),
            consistent(timer@),
            timer@ == (TimerView {
                focus,
                started: now.wall,
                offset_minutes,
                closed: Seq::empty(),
                open_kind: SpanKind::Work,
                open_from: 0,
                origin: now.uptime,
                base: 0,
                last: now,
                last_offset: 0,
                paused: false,
                idle_from: None,
                away: false,
                flags: Seq::empty(),
                ceiling: Self::DEFAULT_CEILING,
                tick: DEFAULT_TICK,
                detects_suspend: timer@.detects_suspend,
                source: Source::Timer,
            }),
    {
        let timer = Self {
            focus,
            started: now.wall,
            offset_minutes,
            closed: Vec::new(),
            open_kind: SpanKind::Work,
            open_from: 0,
            origin: now.uptime,
            base: 0,
            last: now,
            last_offset: 0,
            paused: false,
            idle_from: None,
            away: false,
            flags: Vec::new(),
            ceiling: Self::DEFAULT_CEILING,
            tick: DEFAULT_TICK,
            detects_suspend: platform_detects_suspend(),
            source: Source::Timer,
        };
        assert(timer@.closed =~= Seq::<Span>::empty());
        timer
    }

    /// Sets the work time past which the session is flagged; twelve hours unless set.
    pub fn ceiling(self, seconds: u32) -> (timer: Self)
        requires
            self.wf(),
        ensures
            timer.wf(),
            timer@ == (TimerView { ceiling: seconds, ..self@ }),
    {
        let mut timer = self;
        timer.ceiling = seconds;
        timer
    }

    /// The work time past which the session is flagged.
    pub fn ceiling_seconds(&self) -> (seconds: u32)
        ensures
            seconds == self@.ceiling,
    {
        self.ceiling
    }

    /// Sets how often a tick is expected, which decides how late a tick may be before the
    /// lateness counts as sleep; one second unless set. Zero is read as one.
    pub fn tick_interval(self, seconds: u32) -> (timer: Self)
        requires
            self.wf(),
        ensures
            timer.wf(),
            timer@ == (TimerView { tick: if seconds > 1 { seconds } else { 1 }, ..self@ }),
    {
        let mut timer = self;
        timer.tick = if seconds > 1 { seconds } else { 1 };
        timer
    }

    /// Sets whether the readings tell sleep apart, which is what the platform says unless set.
    /// When they do not, a late tick is the only sign of sleep.
    pub fn detects_suspend(self, detects: bool) -> (timer: Self)
        requires
            self.wf(),
        ensures
            timer.wf(),
            timer@ == (TimerView { detects_suspend: detects, ..self@ }),
    {
        let mut timer = self;
        timer.detects_suspend = detects;
        timer
    }

    /// Adds the flags a running file carried, each once, so a restored timer keeps what the run
    /// before it found out.
    pub fn with_flags(self, flags: Vec<Flag>) -> (timer: Self)
        requires
            self.wf(),
        ensures
            timer.wf(),
            timer@ == (TimerView { flags: flagged_all(self@.flags, flags@), ..self@ }),
    {
        let mut timer = self;
        let mut i: usize = 0;
        while i < flags.len()
            invariant
                timer.wf(),
                i <= flags@.len(),
                timer@ == (TimerView { flags: flagged_all(self@.flags, flags@.subrange(0, i as int)), ..self@ }),
            decreases flags@.len() - i,
        {
            assert(flags@.subrange(0, i + 1).drop_last() =~= flags@.subrange(0, i as int));
            timer.flag(flags[i]);
            i = i + 1;
        }
        assert(flags@.subrange(0, flags@.len() as int) =~= flags@);
        timer
    }

    /// Sets where the session it stops with is said to come from: recovered after a restore,
    /// measured by the timer after a start. A counter the command line stopped in the ordinary
    /// way is not a recovery, however it was rebuilt.
    pub fn source(self, source: Source) -> (timer: Self)
        requires
            self.wf(),
        ensures
            timer.wf(),
            timer@ == (TimerView { source, ..self@ }),
    {
        let mut timer = self;
        timer.source = source;
        timer
    }

    /// Whether a break is on.
    pub fn is_paused(&self) -> (paused: bool)
        ensures
            paused == self@.paused,
    {
        self.paused
    }

    /// Whether a silence is being measured right now.
    pub fn is_away(&self) -> (away: bool)
        ensures
            away == self@.away,
    {
        self.away
    }

    /// Whether a silence waits for the person to say what it was.
    pub fn has_unclaimed_idle(&self) -> (waiting: bool)
        ensures
            waiting == (self@.idle_from is Some && !self@.away),
    {
        self.idle_from.is_some() && !self.away
    }

    /// Where the latest silence began, while it is being measured or waits for the person to say
    /// what it was; the running file keeps it so a restored counter can ask again.
    pub fn unclaimed_idle_from(&self) -> (from: Option<u32>)
        ensures
            from == self@.idle_from,
    {
        self.idle_from
    }

    /// The focus being measured.
    pub fn focus(&self) -> (focus: Id)
        ensures
            focus == self@.focus,
    {
        self.focus
    }

    /// When the session began, in seconds since the Unix epoch.
    pub fn started(&self) -> (started: i64)
        ensures
            started == self@.started,
    {
        self.started
    }

    /// Minutes the local time was ahead of UTC when the session began.
    pub fn offset_minutes(&self) -> (offset: i16)
        ensures
            offset == self@.offset_minutes,
    {
        self.offset_minutes
    }

    /// The flags gathered so far.
    pub fn flags(&self) -> (flags: &[Flag])
        ensures
            flags@ == self@.flags,
    {
        self.flags.as_slice()
    }

    /// The session offset of `now`, counted from the origin reading. A reading before the
    /// origin counts as the origin, and a reading behind the last one counts as the last one, so
    /// the offset never moves back.
    fn offset_at(&self, now: Clocks) -> (offset: u32)
        ensures
            offset == offset_at(self@, now),
    {
        let since = whole_seconds(now.uptime.elapsed.saturating_sub(self.origin.elapsed));
        let counted = self.base.saturating_add(since);
        if counted > self.last_offset { counted } else { self.last_offset }
    }

    /// Every span up to `now`: the closed ones and the open one grown to `now`, with adjacent
    /// spans of the same kind merged. A sleep since the last tick is not visible until the
    /// next [`Timer::tick`].
    pub fn spans(&self, now: Clocks) -> (spans: Vec<Span>)
        requires
            self.wf(),
        ensures
            spans@ == spans_at(self@, now),
    {
        let mut spans = crate::session::copy_spans(&self.closed);
        let kind = self.open_kind;
        let from = self.open_from;
        let seconds = self.offset_at(now) - from;
        push_merged(&mut spans, Span::new(kind, from, seconds, ClockSource::Mono));
        spans
    }

    /// Seconds the session has lasted at `now`, sleep included, measured by the clock that keeps
    /// going through sleep.
    pub fn elapsed(&self, now: Clocks) -> (seconds: u32)
        ensures
            seconds == offset_at(self@, now),
    {
        self.offset_at(now)
    }

    /// Seconds of work at `now`: the sum of the work spans.
    pub fn work_seconds(&self, now: Clocks) -> (seconds: u64)
        requires
            self.wf(),
            work_of(spans_at(self@, now)) <= u64::MAX,
        ensures
            seconds == work_of(spans_at(self@, now)),
    {
        let spans = self.spans(now);
        crate::span::work_seconds(spans.as_slice())
    }

    /// Seconds of the latest silence at `now`: the idle spans since it began, whether it is
    /// still going on or waits to be claimed; zero when there is none.
    pub fn idle_seconds(&self, now: Clocks) -> (seconds: u32)
        requires
            self.wf(),
        ensures
            seconds == match self@.idle_from {
                None => 0,
                Some(from) => idle_total(spans_at(self@, now), from),
            },
    {
        let from = match self.idle_from {
            None => return 0,
            Some(from) => from,
        };
        let spans = self.spans(now);
        let mut sum: u32 = 0;
        let mut i: usize = 0;
        while i < spans.len()
            invariant
                i <= spans@.len(),
                sum == idle_total(spans@.subrange(0, i as int), from),
            decreases spans@.len() - i,
        {
            assert(spans@.subrange(0, i + 1).drop_last() =~= spans@.subrange(0, i as int));
            if spans[i].kind == SpanKind::Idle && spans[i].offset >= from {
                sum = sum.saturating_add(spans[i].seconds);
            }
            i = i + 1;
        }
        assert(spans@.subrange(0, spans@.len() as int) =~= spans@);
        sum
    }

    /// Carries on a timer that was running when the program last stopped.
    ///
    /// `spans` are the ones written up to `refreshed`, the wall stamp of the last save, and
    /// `until` is how far the counter is known to have been alive. No monotonic clock of this
    /// process saw any of the time since `refreshed`, so the wall clock stands in: from
    /// `refreshed` to `until` the kind that was open (work, or a break when `paused`) goes on and
    /// counts, and from `until` to `now.wall` the program was not alive, so that becomes a gap
    /// that does not count. The timer then continues in the state it was in: a paused timer stays
    /// paused. An `until` before `refreshed` counts as `refreshed`, and one after `now.wall` as
    /// `now.wall`. The session it eventually stops with is marked recovered unless
    /// [`Timer::source`] says otherwise, and carries no flags until [`Timer::with_flags`] hands
    /// them over. Idle spans the file holds stay as they are; a silence left unanswered is handed
    /// over with [`Timer::with_unclaimed_idle`] so the question about it can be asked again.
    pub fn restore(
        focus: Id,
        started: i64,
        offset_minutes: i16,
        spans: Vec<Span>,
        paused: bool,
        refreshed: i64,
        until: i64,
        now: Clocks,
    ) -> (timer: Self)
        ensures
            timer.wf(),
            timer@ == restored_timer(
                focus,
                started,
                offset_minutes,
                spans@,
                paused,
                refreshed,
                until,
                now,
                timer@.detects_suspend,
            ),
    {
        let mut closed: Vec<Span> = Vec::new();
        let mut i: usize = 0;
        while i < spans.len()
            invariant
                i <= spans@.len(),
                closed@ == merged_all(spans@.subrange(0, i as int)),
            decreases spans@.len() - i,
        {
            assert(spans@.subrange(0, i + 1).drop_last() =~= spans@.subrange(0, i as int));
            push_merged(&mut closed, spans[i]);
            i = i + 1;
        }
        assert(spans@.subrange(0, spans@.len() as int) =~= spans@);
        let kind = if paused { SpanKind::Pause } else { SpanKind::Work };
        let n = closed.len();
        let end: u32 = if n == 0 {
            0
        } else {
            let last_end = closed[n - 1].end();
            if last_end > u32::MAX as u64 { u32::MAX } else { last_end as u32 }
        };
        let until = if until > refreshed { until } else { refreshed };
        let reached = if until < now.wall { until } else { now.wall };
        let alive = fits_or_zero_u32(sub_i64(reached, refreshed));
        push_merged(&mut closed, Span::new(kind, end, alive, ClockSource::Wall));
        let end = end.saturating_add(alive);
        let unseen = fits_or_zero_u32(sub_i64(now.wall, until));
        push_merged(&mut closed, Span::new(SpanKind::Gap, end, unseen, ClockSource::Wall));
        let offset = end.saturating_add(unseen);
        Self {
            focus,
            started,
            offset_minutes,
            closed,
            open_kind: kind,
            open_from: offset,
            origin: now.uptime,
            base: offset,
            last: now,
            last_offset: offset,
            paused,
            idle_from: None,
            away: false,
            flags: Vec::new(),
            ceiling: Self::DEFAULT_CEILING,
            tick: DEFAULT_TICK,
            detects_suspend: platform_detects_suspend(),
            source: Source::Recovered,
        }
    }

    /// Takes over the silence a running file says nobody answered for, which began at the session
    /// offset `from`. The run that was measuring it is gone, so the silence is over and waits for
    /// the person to say what it was. Nothing is taken over when no idle span lies at or after
    /// `from`: there would be nothing for the answer to change.
    pub fn with_unclaimed_idle(self, from: Option<u32>) -> (timer: Self)
        requires
            self.wf(),
        ensures
            timer.wf(),
            timer@ == (TimerView {
                away: false,
                idle_from: match from {
                    Some(f) => if (exists|i: int|
                        0 <= i < self@.closed.len() && self@.closed[i].kind == SpanKind::Idle && end_of(self@.closed[i]) > f) {
                        Some(f)
                    } else {
                        None
                    },
                    None => None,
                },
                ..self@
            }),
    {
        let mut timer = self;
        timer.away = false;
        timer.idle_from = match from {
            None => None,
            Some(f) => {
                let mut found = false;
                let mut i: usize = 0;
                while i < timer.closed.len()
                    invariant
                        i <= timer.closed@.len(),
                        found == (exists|j: int|
                            0 <= j < i && timer.closed@[j].kind == SpanKind::Idle && end_of(timer.closed@[j]) > f),
                    decreases timer.closed@.len() - i,
                {
                    let span = timer.closed[i];
                    if span.kind == SpanKind::Idle && span.end() > f as u64 {
                        found = true;
                    }
                    i = i + 1;
                }
                if found { Some(f) } else { None }
            },
        };
        timer
    }

    /// Takes the reading `now` into account and reports what changed.
    #[verifier::spinoff_prover]
    #[verifier::rlimit(40)]
    pub fn tick(&mut self, now: Clocks) -> (notices: Vec<Notice>)
        requires
            old(self).wf(),
        ensures
            final(self).wf(),
            final(self)@ == ticked(old(self)@, now),
            notices@ == tick_notices(old(self)@, now),
    {
        let mut notices: Vec<Notice> = Vec::new();
        let offset = self.offset_at(now);
        let step = offset - self.last_offset;
        let kind = self.open_kind;
        let from = self.open_from;
        let asleep: u32 = if self.detects_suspend {
            let slept = whole_seconds(now.uptime.suspended_since(&self.last.uptime));
            if slept > 0 {
                notices.push(Notice::Suspended(slept, kind));
            }
            slept
        } else {
            let awake = whole_seconds(now.uptime.awake.saturating_sub(self.last.uptime.awake));
            let tripled: u32 = if self.tick > u32::MAX / 3 { u32::MAX } else { self.tick * 3 };
            let threshold = if LAG_FLOOR > tripled { LAG_FLOOR } else { tripled };
            if awake > threshold {
                let late = awake.saturating_sub(self.tick);
                notices.push(Notice::Lagged(late, kind));
                late
            } else {
                0
            }
        };
        let asleep = if asleep < step { asleep } else { step };
        let ghost start = self@;
        if asleep > 0 {
            // A sleep counts as whatever was being measured when it began: work stays work, a
            // break a break, a silence a silence the person is asked about. It is its own span,
            // measured by the clock that runs through sleep, so the record keeps where it was.
            let to = self.last_offset;
            self.close(kind, from, to);
            push_merged(&mut self.closed, Span::new(kind, to, asleep, ClockSource::Boot));
            self.open_kind = kind;
            self.open_from = to + asleep;
        }
        assert(self@ == after_sleep(start, now));
        let wall_step = sub_i64(now.wall, self.last.wall);
        let drift = sub_i64(wall_step, step as i64);
        let ghost before_jump = notices@;
        if drift > CLOCK_DRIFT || drift < -CLOCK_DRIFT {
            notices.push(Notice::ClockJump(drift));
            self.flag(Flag::SuspectClock);
        }
        self.last = now;
        self.last_offset = offset;
        assert(self@ == before_ceiling(start, now));
        let spans = self.spans(now);
        let work = work_total(spans.as_slice());
        if work > self.ceiling as u128 && !contains(&self.flags, Flag::OverCeiling) {
            notices.push(Notice::OverCeiling);
            self.flag(Flag::OverCeiling);
        }
        proof {
            assert(notices@ =~= tick_notices(start, now));
        }
        notices
    }

    /// Starts a break at `now`. Does nothing while already paused. The reading is ticked first,
    /// so anything it reveals is returned as from [`Timer::tick`].
    pub fn pause(&mut self, now: Clocks) -> (notices: Vec<Notice>)
        requires
            old(self).wf(),
        ensures
            final(self).wf(),
            final(self)@ == paused_at(ticked(old(self)@, now)),
            notices@ == tick_notices(old(self)@, now),
    {
        let notices = self.tick(now);
        if !self.paused {
            self.paused = true;
            self.switch(SpanKind::Pause);
        }
        notices
    }

    /// Ends a break at `now`. Does nothing while not paused. The reading is ticked first, so
    /// anything it reveals is returned as from [`Timer::tick`].
    pub fn resume(&mut self, now: Clocks) -> (notices: Vec<Notice>)
        requires
            old(self).wf(),
        ensures
            final(self).wf(),
            final(self)@ == resumed_at(ticked(old(self)@, now)),
            notices@ == tick_notices(old(self)@, now),
    {
        let notices = self.tick(now);
        if self.paused {
            self.paused = false;
            self.switch(SpanKind::Work);
        }
        notices
    }

    /// No input has reached the terminal for `seconds_ago` seconds, as of `now`: from that
    /// moment on the work is idle until the input comes back, and the record is flagged until
    /// the person says what the silence was. The time is not cut; it is measured under another
    /// kind. Work spans in that tail are re-kinded, a break inside it stays what it was, and so
    /// does work counted through a sleep: the silence is measured on the awake clock, which says
    /// nothing about the time the machine slept. Nothing changes during a break or while a
    /// silence is already being measured. The reading is ticked first, so anything it reveals is
    /// returned as from [`Timer::tick`].
    pub fn idle_since(&mut self, now: Clocks, seconds_ago: u32) -> (notices: Vec<Notice>)
        requires
            old(self).wf(),
        ensures
            final(self).wf(),
            final(self)@ == idled(ticked(old(self)@, now), seconds_ago),
            notices@ == tick_notices(old(self)@, now),
    {
        let notices = self.tick(now);
        if self.paused || self.away {
            return notices;
        }
        let from = self.last_offset.saturating_sub(seconds_ago);
        self.rekind_from(from, SpanKind::Work, SpanKind::Idle, false);
        // The open span is work: the part before the silence stays so, the rest is idle.
        let open_from = self.open_from;
        if from > open_from {
            self.close(SpanKind::Work, open_from, from);
        }
        self.open_kind = SpanKind::Idle;
        self.open_from = if open_from > from { open_from } else { from };
        self.idle_from = Some(from);
        self.away = true;
        self.flag(Flag::UnclaimedIdle);
        notices
    }

    /// Input came back at `now`: the idle span ends there and work goes on, while the stretch
    /// waits for [`Timer::claim_idle`]. Nothing changes when no silence was being measured. The
    /// reading is ticked first, so anything it reveals is returned as from [`Timer::tick`].
    pub fn idle_over(&mut self, now: Clocks) -> (notices: Vec<Notice>)
        requires
            old(self).wf(),
        ensures
            final(self).wf(),
            final(self)@ == back(ticked(old(self)@, now)),
            notices@ == tick_notices(old(self)@, now),
    {
        let notices = self.tick(now);
        if self.away {
            self.away = false;
            self.switch(SpanKind::Work);
        }
        notices
    }

    /// The person said what the latest silence was: its idle spans take the kind of the
    /// decision. Counting it or making it a break clears the flag, unless an earlier silence was
    /// left out and still holds idle spans; leaving it out keeps the flag. A silence still being
    /// measured is ended first. `false` when there is nothing to claim. The reading is ticked
    /// first.
    pub fn claim_idle(&mut self, now: Clocks, decision: IdleDecision) -> (answered: bool)
        requires
            old(self).wf(),
        ensures
            final(self).wf(),
            final(self)@ == claimed(back(ticked(old(self)@, now)), decision),
            answered == back(ticked(old(self)@, now)).idle_from is Some,
    {
        self.idle_over(now);
        let from = match self.idle_from {
            None => return false,
            Some(from) => from,
        };
        self.idle_from = None;
        self.rekind_from(from, SpanKind::Idle, decision.kind(), true);
        if !any_idle(&self.closed) {
            self.flags = crate::session::edit::remove_flag(&self.flags, Flag::UnclaimedIdle);
        }
        true
    }

    /// Ends the session at `now` as a record with `id`, written at `written`. Its end is the
    /// start plus the elapsed time, so the spans always fill it exactly.
    pub fn stop(self, now: Clocks, id: Id, written: i64) -> (session: Session)
        requires
            self.wf(),
        ensures
            session@ == stopped(self@, now, id, written),
    {
        let mut timer = self;
        timer.tick(now);
        let elapsed = timer.elapsed(now);
        let spans = timer.spans(now);
        Session {
            id,
            revision: 1,
            written,
            focus: timer.focus,
            started: timer.started,
            offset_minutes: timer.offset_minutes,
            ended: add_i64(timer.started, elapsed as i64),
            spans,
            source: timer.source,
            replaces: None,
            voids: None,
            continues: None,
            flags: timer.flags,
            note: String::new(),
        }
    }

    /// Adds `flag` unless it is already there.
    fn flag(&mut self, flag: Flag)
        ensures
            final(self)@ == (TimerView { flags: flagged(old(self)@.flags, flag), ..old(self)@ }),
    {
        if !contains(&self.flags, flag) {
            self.flags.push(flag);
        }
    }

    /// Closes the open span of `kind` from `from` to `to` and starts a new one of `kind` there.
    fn close(&mut self, kind: SpanKind, from: u32, to: u32)
        ensures
            final(self)@ == closed_at(old(self)@, kind, from, to),
    {
        let seconds = to.saturating_sub(from);
        push_merged(&mut self.closed, Span::new(kind, from, seconds, ClockSource::Mono));
        self.open_kind = kind;
        self.open_from = to;
    }

    /// Closes the open span at the last reading and opens one of `kind` there.
    fn switch(&mut self, kind: SpanKind)
        ensures
            final(self)@ == switched(old(self)@, kind),
    {
        let current = self.open_kind;
        let from = self.open_from;
        let to = self.last_offset;
        self.close(current, from, to);
        self.open_kind = kind;
    }

    /// Gives every part of a closed span of kind `was` that lies at or after `from` the kind
    /// `becomes`, splitting a span the offset falls inside, and merges what comes out. Spans
    /// measured through a sleep are left alone unless `through_sleep` says otherwise. The open
    /// span is not touched.
    fn rekind_from(&mut self, from: u32, was: SpanKind, becomes: SpanKind, through_sleep: bool)
        ensures
            final(self)@ == (TimerView { closed: rekinded(old(self)@.closed, from, was, becomes, through_sleep), ..old(self)@ }),
    {
        let mut rebuilt: Vec<Span> = Vec::new();
        let mut i: usize = 0;
        while i < self.closed.len()
            invariant
                self@ == old(self)@,
                i <= self.closed@.len(),
                rebuilt@ == rekinded(self.closed@.subrange(0, i as int), from, was, becomes, through_sleep),
            decreases self.closed@.len() - i,
        {
            let span = self.closed[i];
            assert(self.closed@.subrange(0, i + 1).drop_last() =~= self.closed@.subrange(0, i as int));
            let untouched = span.clock == ClockSource::Boot && !through_sleep;
            if span.kind != was || untouched || span.end() <= from as u64 {
                push_merged(&mut rebuilt, span);
            } else if span.offset >= from {
                push_merged(&mut rebuilt, Span::new(becomes, span.offset, span.seconds, span.clock));
            } else {
                let before = from - span.offset;
                push_merged(&mut rebuilt, Span::new(was, span.offset, before, span.clock));
                push_merged(&mut rebuilt, Span::new(becomes, from, span.seconds - before, span.clock));
            }
            i = i + 1;
        }
        assert(self.closed@.subrange(0, self.closed@.len() as int) =~= self.closed@);
        self.closed = rebuilt;
    }
}

/// Seconds of work in `spans`, however many there are.
pub(crate) fn work_total(spans: &[Span]) -> (seconds: u128)
    ensures
        seconds == work_of(spans@),
{
    let mut sum: u128 = 0;
    let mut i: usize = 0;
    while i < spans.len()
        invariant
            i <= spans@.len(),
            sum == work_of(spans@.subrange(0, i as int)),
            sum <= i * 0x1_0000_0000,
        decreases spans@.len() - i,
    {
        assert(spans@.subrange(0, i + 1).drop_last() =~= spans@.subrange(0, i as int));
        if spans[i].kind == SpanKind::Work {
            sum = sum + spans[i].seconds as u128;
        }
        i = i + 1;
    }
    assert(spans@.subrange(0, spans@.len() as int) =~= spans@);
    sum
}

/// Whether any of `spans` is idle.
fn any_idle(spans: &Vec<Span>) -> (found: bool)
    ensures
        found == has_idle(spans@),
{
    let mut i: usize = 0;
    while i < spans.len()
        invariant
            i <= spans@.len(),
            forall|j: int| 0 <= j < i ==> spans@[j].kind != SpanKind::Idle,
        decreases spans@.len() - i,
    {
        if spans[i].kind == SpanKind::Idle {
            return true;
        }
        i = i + 1;
    }
    false
}

/// `value` as a `u32` when it is one, else zero.
fn fits_or_zero_u32(value: i64) -> (fitted: u32)
    ensures
        fitted == fits_or_zero(value as int),
{
    if 0 <= value && value <= u32::MAX as i64 { value as u32 } else { 0 }
}

/// Whether `flags` hold `flag`.
fn contains(flags: &Vec<Flag>, flag: Flag) -> (found: bool)
    ensures
        found == has_flag(flags@, flag),
{
    let mut i: usize = 0;
    while i < flags.len()
        invariant
            i <= flags@.len(),
            forall|j: int| 0 <= j < i ==> flags@[j] != flag,
        decreases flags@.len() - i,
    {
        if flags[i] == flag {
            return true;
        }
        i = i + 1;
    }
    false
}

/// Whole seconds of `nanos`; a value too large for a span counts as the largest span.
pub fn whole_seconds(nanos: u128) -> (seconds: u32)
    ensures
        seconds == whole(nanos as int),
{
    let secs = nanos / NANOS;
    if secs > u32::MAX as u128 { u32::MAX } else { secs as u32 }
}

/// Appends `span` to `spans`, extending the last one instead when it is of the same kind and
/// measured by the same clock. Spans of different clocks stay apart, so work counted through a
/// sleep keeps its place beside the work measured awake.
pub fn push_merged(spans: &mut Vec<Span>, span: Span)
    ensures
        final(spans)@ == merged(old(spans)@, span),
{
    if span.seconds == 0 {
        return;
    }
    let n = spans.len();
    if n > 0 {
        let last = spans[n - 1];
        if last.kind == span.kind && last.clock == span.clock && last.end() == span.offset as u64 {
            let grown = Span::new(last.kind, last.offset, last.seconds.saturating_add(span.seconds), last.clock);
            spans.set(n - 1, grown);
            assert(spans@ =~= old(spans)@.drop_last().push(grown));
            return;
        }
    }
    spans.push(span);
}

} // verus!

verus! {

/// Every prefix of spans that hold together holds together up to where the next span starts.
proof fn lemma_held_prefix(s: Seq<Span>, e: int)
    requires
        holds_together(s, e),
        s.len() > 0,
    ensures
        holds_together(s.drop_last(), s.last().offset as int),
{
    let shorter = s.drop_last();
    assert forall|i: int| 0 <= i < shorter.len() implies (#[trigger] shorter[i]).offset == start_of(shorter, i) by {
        assert(shorter[i] == s[i]);
        assert(s[i].offset == start_of(s, i));
        if i > 0 {
            assert(shorter[i - 1] == s[i - 1]);
        }
    }
    assert forall|i: int| 0 <= i < shorter.len() implies !sleep_on_mono(#[trigger] shorter[i]) by {
        assert(shorter[i] == s[i]);
    }
    assert(s[s.len() - 1].offset == start_of(s, s.len() - 1));
    if s.len() > 1 {
        assert(shorter[shorter.len() - 1] == s[s.len() - 2]);
    }
}

/// Spans that hold together up to `e` each end no later than `e`, and every prefix holds
/// together up to where the next span starts.
proof fn lemma_held_ends(s: Seq<Span>, e: int)
    requires
        holds_together(s, e),
    ensures
        forall|i: int| 0 <= i < s.len() ==> end_of(#[trigger] s[i]) <= e,
        s.len() > 0 ==> holds_together(s.drop_last(), s.last().offset as int),
        e >= 0,
    decreases s.len(),
{
    if s.len() > 0 {
        lemma_held_prefix(s, e);
        let shorter = s.drop_last();
        lemma_held_ends(shorter, s.last().offset as int);
        assert forall|i: int| 0 <= i < s.len() implies end_of(#[trigger] s[i]) <= e by {
            if i < s.len() - 1 {
                assert(s[i] == shorter[i]);
            }
        }
    }
}

/// A span that starts where spans that hold together end, and is no sleep of the monotonic
/// clock, merges in and the spans then hold together up to its end.
proof fn lemma_merge_held(s: Seq<Span>, e: int, span: Span)
    requires
        holds_together(s, e),
        span.offset == e,
        !sleep_on_mono(span),
        e + span.seconds <= u32::MAX,
    ensures
        holds_together(merged(s, span), e + span.seconds),
{
    lemma_held_ends(s, e);
    let m = merged(s, span);
    if span.seconds == 0 {
    } else if s.len() > 0 && s.last().kind == span.kind && s.last().clock == span.clock && end_of(s.last()) == span.offset {
        let last = s.last();
        assert(last.offset == start_of(s, s.len() - 1));
        assert forall|i: int| 0 <= i < m.len() implies (#[trigger] m[i]).offset == start_of(m, i) by {
            if i < m.len() - 1 {
                assert(m[i] == s[i]);
            }
            if 0 < i && i - 1 < m.len() - 1 {
                assert(m[i - 1] == s[i - 1]);
            }
        }
        assert forall|i: int| 0 <= i < m.len() implies !sleep_on_mono(#[trigger] m[i]) by {
            if i < m.len() - 1 {
                assert(m[i] == s[i]);
            }
        }
    } else {
        assert forall|i: int| 0 <= i < m.len() implies (#[trigger] m[i]).offset == start_of(m, i) by {
            if i < s.len() {
                assert(m[i] == s[i]);
            }
            if 0 < i && i - 1 < s.len() {
                assert(m[i - 1] == s[i - 1]);
            }
        }
        assert forall|i: int| 0 <= i < m.len() implies !sleep_on_mono(#[trigger] m[i]) by {
            if i < s.len() {
                assert(m[i] == s[i]);
            }
        }
    }
}

/// Re-kinding keeps spans that hold together holding together, as long as nothing becomes a
/// gap.
proof fn lemma_rekind_held(s: Seq<Span>, e: int, from: u32, was: SpanKind, becomes: SpanKind, through_sleep: bool)
    requires
        holds_together(s, e),
        e <= u32::MAX,
        becomes != SpanKind::Gap,
    ensures
        holds_together(rekinded(s, from, was, becomes, through_sleep), e),
    decreases s.len(),
{
    lemma_held_ends(s, e);
    if s.len() > 0 {
        let span = s.last();
        let start = span.offset as int;
        lemma_rekind_held(s.drop_last(), start, from, was, becomes, through_sleep);
        let before = rekinded(s.drop_last(), from, was, becomes, through_sleep);
        assert(span.offset == start_of(s, s.len() - 1));
        assert(!sleep_on_mono(span));
        assert(end_of(span) <= e);
        let untouched = span.clock == ClockSource::Boot && !through_sleep;
        if span.kind != was || untouched || end_of(span) <= from {
            lemma_merge_held(before, start, span);
        } else if span.offset >= from {
            lemma_merge_held(before, start, Span { kind: becomes, ..span });
        } else {
            let cut = (from - span.offset) as u32;
            let first = Span { kind: was, seconds: cut, ..span };
            lemma_merge_held(before, start, first);
            let second = Span { kind: becomes, offset: from, seconds: (span.seconds - cut) as u32, ..span };
            lemma_merge_held(merged(before, first), start + cut, second);
        }
    }
}

/// Spans that hold together still do once merged one after another.
proof fn lemma_merged_all_held(s: Seq<Span>, e: int)
    requires
        holds_together(s, e),
        e <= u32::MAX,
    ensures
        holds_together(merged_all(s), e),
    decreases s.len(),
{
    lemma_held_ends(s, e);
    if s.len() > 0 {
        let span = s.last();
        lemma_merged_all_held(s.drop_last(), span.offset as int);
        assert(span.offset == start_of(s, s.len() - 1));
        lemma_merge_held(merged_all(s.drop_last()), span.offset as int, span);
    }
}

/// Closing the open span at the last reading keeps a consistent timer's spans holding together
/// up to the last reading.
proof fn lemma_close_held(v: TimerView, kind: SpanKind)
    requires
        well_formed(v),
        consistent(v),
    ensures
        holds_together(closed_at(v, v.open_kind, v.open_from, v.last_offset).closed, v.last_offset as int),
        consistent(TimerView { open_kind: kind, ..closed_at(v, v.open_kind, v.open_from, v.last_offset) }) || kind
            == SpanKind::Gap,
{
    lemma_merge_held(
        v.closed,
        v.open_from as int,
        Span { kind: v.open_kind, offset: v.open_from, seconds: (v.last_offset - v.open_from) as u32, clock: ClockSource::Mono },
    );
}

/// The spans of a consistent timer fill its session: whatever the reading, they follow one
/// another from the start, with no hole and no overlap, up to the elapsed time.
pub proof fn law_a_consistent_timer_s_spans_fill_the_session(v: TimerView, now: Clocks)
    requires
        well_formed(v),
        consistent(v),
    ensures
        holds_together(spans_at(v, now), offset_at(v, now) as int),
{
    lemma_merge_held(
        v.closed,
        v.open_from as int,
        Span { kind: v.open_kind, offset: v.open_from, seconds: (offset_at(v, now) - v.open_from) as u32, clock: ClockSource::Mono },
    );
}

/// A tick keeps a timer consistent and well formed, whatever the reading.
pub proof fn law_a_tick_keeps_the_timer_consistent(v: TimerView, now: Clocks)
    requires
        well_formed(v),
        consistent(v),
    ensures
        well_formed(ticked(v, now)),
        consistent(ticked(v, now)),
{
    let step = offset_at(v, now) - v.last_offset;
    let asleep = if slept(v, now) < step { slept(v, now) } else { step };
    if asleep > 0 {
        lemma_close_held(v, v.open_kind);
        let c = closed_at(v, v.open_kind, v.open_from, v.last_offset);
        lemma_merge_held(
            c.closed,
            v.last_offset as int,
            Span { kind: v.open_kind, offset: v.last_offset, seconds: asleep as u32, clock: ClockSource::Boot },
        );
    }
}

/// Every operation of a timer keeps it consistent and well formed: a tick, a break started or
/// ended, a silence noticed, input coming back and a silence answered, whatever the reading and
/// the answer. Together with [`law_a_consistent_timer_s_spans_fill_the_session`], the spans of
/// a started timer always fill its session.
pub proof fn law_every_step_keeps_the_timer_consistent(v: TimerView, now: Clocks, seconds_ago: u32, decision: IdleDecision)
    requires
        well_formed(v),
        consistent(v),
    ensures
        well_formed(paused_at(ticked(v, now))) && consistent(paused_at(ticked(v, now))),
        well_formed(resumed_at(ticked(v, now))) && consistent(resumed_at(ticked(v, now))),
        well_formed(idled(ticked(v, now), seconds_ago)) && consistent(idled(ticked(v, now), seconds_ago)),
        well_formed(back(ticked(v, now))) && consistent(back(ticked(v, now))),
        well_formed(claimed(back(ticked(v, now)), decision)) && consistent(claimed(back(ticked(v, now)), decision)),
{
    law_a_tick_keeps_the_timer_consistent(v, now);
    let t = ticked(v, now);
    lemma_close_held(t, SpanKind::Pause);
    lemma_close_held(t, SpanKind::Work);
    if !(t.paused || t.away) {
        let from = minus(t.last_offset as int, seconds_ago as int) as u32;
        lemma_rekind_held(t.closed, t.open_from as int, from, SpanKind::Work, SpanKind::Idle, false);
        let closed = rekinded(t.closed, from, SpanKind::Work, SpanKind::Idle, false);
        if from > t.open_from {
            lemma_merge_held(
                closed,
                t.open_from as int,
                Span { kind: SpanKind::Work, offset: t.open_from, seconds: (from - t.open_from) as u32, clock: ClockSource::Mono },
            );
        }
    }
    let b = back(t);
    if let Some(from) = b.idle_from {
        lemma_rekind_held(b.closed, b.open_from as int, from, SpanKind::Idle, decided_kind(decision), true);
    }
}

/// A timer restored from a running file whose spans held together is consistent, as long as
/// the time it carries on from fits in a span.
pub proof fn law_a_restored_timer_is_consistent_when_its_file_was(
    spans: Seq<Span>,
    paused: bool,
    refreshed: i64,
    until: i64,
    wall: i64,
)
    requires
        holds_together(spans, end_of_all_spans(spans)),
        end_of_all_spans(spans) + restored_alive(refreshed, until, wall) + restored_unseen(refreshed, until, wall)
            <= u32::MAX,
    ensures
        holds_together(restored(spans, paused, refreshed, until, wall).0, restored(spans, paused, refreshed, until, wall).1 as int),
{
    let e = end_of_all_spans(spans);
    lemma_held_ends(spans, e);
    lemma_merged_all_held(spans, e);
    let kept = merged_all(spans);
    lemma_merged_all_end(spans, e);
    let kind = if paused { SpanKind::Pause } else { SpanKind::Work };
    let alive = restored_alive(refreshed, until, wall) as u32;
    lemma_merge_held(kept, e, Span { kind, offset: e as u32, seconds: alive, clock: ClockSource::Wall });
    let with_alive = merged(kept, Span { kind, offset: e as u32, seconds: alive, clock: ClockSource::Wall });
    let unseen = restored_unseen(refreshed, until, wall) as u32;
    lemma_merge_held(with_alive, e + alive, Span { kind: SpanKind::Gap, offset: (e + alive) as u32, seconds: unseen, clock: ClockSource::Wall });
}

/// Where spans end when they hold together: the end of the last, or zero.
pub open spec fn end_of_all_spans(spans: Seq<Span>) -> int {
    crate::span::end_of_all(spans)
}

/// Seconds a restored counter was alive after its last save.
pub open spec fn restored_alive(refreshed: i64, until: i64, wall: i64) -> int {
    let until = if until > refreshed { until } else { refreshed };
    let reached = if until < wall { until } else { wall };
    fits_or_zero(clamp_i64(reached - refreshed))
}

/// Seconds nobody saw of a restored counter.
pub open spec fn restored_unseen(refreshed: i64, until: i64, wall: i64) -> int {
    let until = if until > refreshed { until } else { refreshed };
    fits_or_zero(clamp_i64(wall - until))
}

/// Merged spans that hold together end where the spans did.
proof fn lemma_merged_all_end(s: Seq<Span>, e: int)
    requires
        holds_together(s, e),
        e <= u32::MAX,
    ensures
        restored_end(merged_all(s)) == e,
{
    lemma_merged_all_held(s, e);
    lemma_held_ends(merged_all(s), e);
}

/// A timer carried on from a running file whose spans hold together, read at the reading it
/// was restored at: its spans are the file's, merged, then the kind that was open for as long as
/// the counter was alive after its last save, then a gap for the time nobody saw, each left out
/// when it lasted nothing; it has lasted as long as all of them, its spans hold together up to
/// that, it is paused when the file said so, and it carries no flags.
pub proof fn law_a_restored_timer_at_the_reading_it_was_restored_at(
    focus: Id,
    started: i64,
    offset_minutes: i16,
    spans: Seq<Span>,
    paused: bool,
    refreshed: i64,
    until: i64,
    now: Clocks,
    detects_suspend: bool,
)
    requires
        holds_together(spans, end_of_all_spans(spans)),
        end_of_all_spans(spans) + restored_alive(refreshed, until, now.wall) + restored_unseen(refreshed, until, now.wall)
            <= u32::MAX,
    ensures
        ({
            let v = restored_timer(focus, started, offset_minutes, spans, paused, refreshed, until, now, detects_suspend);
            let e = end_of_all_spans(spans);
            let alive = restored_alive(refreshed, until, now.wall);
            let kind = if paused { SpanKind::Pause } else { SpanKind::Work };
            &&& spans_at(v, now) == merged(
                merged(merged_all(spans), Span { kind, offset: e as u32, seconds: alive as u32, clock: ClockSource::Wall }),
                Span {
                    kind: SpanKind::Gap,
                    offset: (e + alive) as u32,
                    seconds: restored_unseen(refreshed, until, now.wall) as u32,
                    clock: ClockSource::Wall,
                },
            )
            &&& offset_at(v, now) == e + alive + restored_unseen(refreshed, until, now.wall)
            &&& holds_together(spans_at(v, now), offset_at(v, now) as int)
            &&& v.paused == paused
            &&& v.flags.len() == 0
        }),
{
    let v = restored_timer(focus, started, offset_minutes, spans, paused, refreshed, until, now, detects_suspend);
    let e = end_of_all_spans(spans);
    lemma_held_ends(spans, e);
    lemma_merged_all_end(spans, e);
    law_a_restored_timer_is_consistent_when_its_file_was(spans, paused, refreshed, until, now.wall);
    assert(minus(now.uptime.elapsed as int, now.uptime.elapsed as int) == 0);
    assert(whole(0) == 0);
    assert(offset_at(v, now) == v.last_offset);
}

/// The session a timer is stopped with at `now` as the record `id`, written at `written`: the
/// first revision of that record, of the timer's focus, start and offset from UTC, ending as long
/// after its start as the timer has lasted at `now`, linking to nothing and carrying no note. Its
/// spans hold together up to that end whenever the timer's did, which a timer started here, one
/// restored from a file whose spans held together, and every step after either keep.
pub proof fn law_a_stopped_timer_s_session(v: TimerView, now: Clocks, id: Id, written: i64)
    requires
        well_formed(v),
        v.started + offset_at(v, now) <= i64::MAX,
    ensures
        ({
            let s = stopped(v, now, id, written);
            &&& s.id == id
            &&& s.revision == 1
            &&& s.written == written
            &&& s.focus == v.focus
            &&& s.started == v.started
            &&& s.offset_minutes == v.offset_minutes
            &&& s.ended - s.started == offset_at(v, now)
            &&& consistent(v) ==> holds_together(s.spans, offset_at(v, now) as int)
            &&& s.replaces is None
            &&& s.voids is None
            &&& s.continues is None
            &&& s.note.len() == 0
        }),
{
    let t = ticked(v, now);
    assert(offset_at(t, now) == offset_at(v, now));
    if consistent(v) {
        law_a_tick_keeps_the_timer_consistent(v, now);
        law_a_consistent_timer_s_spans_fill_the_session(t, now);
    }
}

/// The time a timer has lasted never goes back from one tick to the next: whatever the next
/// reading, it has lasted at least as long as at the tick before, and a tick leaves it lasting
/// as long as it had at that reading.
pub proof fn law_the_elapsed_time_never_goes_back(v: TimerView, now: Clocks, next: Clocks)
    ensures
        offset_at(ticked(v, now), now) == offset_at(v, now),
        offset_at(ticked(v, now), next) >= offset_at(v, now),
        offset_at(v, now) >= v.last_offset,
{
}

} // verus!
