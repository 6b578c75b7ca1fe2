//! The counter's screen: what it keeps around a running [`Timer`], and how each thing that
//! happens on it moves it on.
//!
//! The screen never touches the disk. Every event is turned into the next state, the things to
//! show or focus ([`Effect`]), and at most one [`Request`] for the application: write the running
//! file, record the session, or say the countdown was reached. The running file is asked for at
//! most every five seconds while the counter ticks, and at once whenever a break starts or ends, a
//! silence begins or ends, or a silence is answered, so a crash loses little.

use vstd::prelude::*;

use crate::arith::{clamp_i64, sub_i64};
use crate::id::Id;
use crate::session::{Session, SessionView};
use crate::span::{Span, work_of};
use crate::store::paths::{trim, trimmed};
use crate::store::running::{Running, RunningView, Watch};
use crate::timer::{
    Clocks, IdleDecision, Notice, Timer, TimerView, back, claimed, idle_total, idled, paused_at, resumed_at,
    spans_at, stopped, tick_notices, ticked, well_formed,
};
use crate::text::string_of;

verus! {

/// How long the running file may go without a refresh while the counter ticks, in seconds.
pub const SAVE_EVERY: i64 = 5;

/// How long the terminal may go without input before the work is idle, when nothing else was
/// set: fifteen minutes.
pub const IDLE_AFTER: u64 = 900;

/// Something that happened on the screen.
#[derive(Debug, Clone, PartialEq, Eq)]
pub enum Msg {
    /// A second passed.
    Tick,
    /// The break was started or ended.
    Pause,
    /// The counter was stopped.
    Stop,
    /// The note field was opened.
    Note,
    /// The note field changed.
    NoteTyped(String),
    /// The note field was submitted.
    NoteSubmit,
    /// The note field was closed without keeping what was typed.
    NoteCancel,
    /// The terminal went silent for the screen's idle threshold (`true`), or input came back
    /// (`false`).
    Idle(bool),
    /// The person said what the silence was.
    Claim(IdleDecision),
}

/// What the screen asks the application for.
#[derive(Debug, Clone, Copy, PartialEq, Eq)]
pub enum Request {
    /// Write the running file now.
    Save,
    /// End the session and record it.
    Stop,
    /// The countdown reached its target on this reading; the counter goes on.
    Reached,
}

/// Something the screen shows or does besides its own state, in the order it happens.
#[derive(Debug, Clone, Copy, PartialEq, Eq)]
pub enum Effect {
    /// A passing message about what a reading revealed.
    Notice(Notice),
    /// A passing message that the countdown reached its target of this many seconds.
    TargetReached(u32),
    /// A passing message that the note was kept.
    NoteKept,
    /// A passing message that what was typed was thrown away.
    Cancelled,
    /// A passing message about the answer given to a silence of this many seconds.
    IdleClaimed(IdleDecision, u64),
    /// The keyboard goes to the note field.
    FocusNote,
    /// The keyboard goes to the stop button.
    FocusStop,
}

/// The state of the screen.
#[derive(Debug, Clone)]
pub struct Screen {
    timer: Timer,
    category: String,
    focus: String,
    /// The last reading the timer saw.
    now: Clocks,
    /// The wall stamp of the last running file written.
    saved_at: i64,
    /// Why the last write of the running file failed, until one succeeds.
    save_problem: Option<String>,
    /// The note kept for the record.
    note: String,
    /// What is being typed into the note field, while it is open.
    draft: Option<String>,
    /// Whether this system can tell sleep apart, which the screen says when it cannot.
    detects_suspend: bool,
    /// Whether the question about the latest silence is open.
    asking_idle: bool,
    /// How long the terminal may go without input before the work is idle, in seconds.
    idle_after: u64,
    /// Seconds of work the counter counts down to, when it was started with a countdown.
    target: Option<u32>,
    /// Whether the countdown has been reached, so it is said once.
    reached: bool,
}

/// A screen as the values it holds.
pub struct ScreenView {
    pub timer: TimerView,
    pub category: Seq<char>,
    pub focus: Seq<char>,
    pub now: Clocks,
    pub saved_at: i64,
    pub save_problem: Option<Seq<char>>,
    pub note: Seq<char>,
    pub draft: Option<Seq<char>>,
    pub detects_suspend: bool,
    pub asking_idle: bool,
    pub idle_after: u64,
    pub target: Option<u32>,
    pub reached: bool,
}

/// The text an optional string holds.
pub open spec fn text_of(text: Option<String>) -> Option<Seq<char>> {
    match text {
        Some(text) => Some(text@),
        None => None,
    }
}

impl View for Screen {
    type V = ScreenView;

    closed spec fn view(&self) -> ScreenView {
        ScreenView {
            timer: self.timer@,
            category: self.category@,
            focus: self.focus@,
            now: self.now,
            saved_at: self.saved_at,
            save_problem: text_of(self.save_problem),
            note: self.note@,
            draft: text_of(self.draft),
            detects_suspend: self.detects_suspend,
            asking_idle: self.asking_idle,
            idle_after: self.idle_after,
            target: self.target,
            reached: self.reached,
        }
    }
}

/// Seconds of work in `spans`, at most the largest `u64`.
pub open spec fn capped_work(spans: Seq<Span>) -> u64 {
    if work_of(spans) > u64::MAX {
        u64::MAX
    } else {
        work_of(spans) as u64
    }
}

/// Seconds of work a screen shows as of its last reading.
pub open spec fn work_shown(v: ScreenView) -> u64 {
    capped_work(spans_at(v.timer, v.now))
}

/// What the big clock shows: before a countdown is reached, what is left of it; otherwise the
/// work so far.
pub open spec fn clock_shown(v: ScreenView) -> u64 {
    match v.target {
        Some(target) if !v.reached => if target >= work_shown(v) {
            (target - work_shown(v)) as u64
        } else {
            0
        },
        _ => work_shown(v),
    }
}

/// Seconds of the latest silence of `timer` at `now`; zero when there is none.
pub open spec fn silence_of(timer: TimerView, now: Clocks) -> int {
    match timer.idle_from {
        None => 0,
        Some(from) => idle_total(spans_at(timer, now), from),
    }
}

/// A passing message for each notice, in order.
pub open spec fn notice_effects(notices: Seq<Notice>) -> Seq<Effect> {
    notices.map_values(|notice: Notice| Effect::Notice(notice))
}

/// The idle threshold in whole seconds as a silence is measured: at most the largest span.
pub open spec fn threshold_seconds(idle_after: u64) -> u32 {
    if idle_after > u32::MAX {
        u32::MAX
    } else {
        idle_after as u32
    }
}

/// Whether the running file is due at the reading `now`: the last one was written at least
/// [`SAVE_EVERY`] seconds before.
pub open spec fn save_due(v: ScreenView, now: Clocks) -> bool {
    clamp_i64(now.wall - v.saved_at) >= SAVE_EVERY
}

/// A second passed at `now`.
pub open spec fn after_tick(v: ScreenView, now: Clocks) -> (ScreenView, Seq<Effect>, Option<Request>) {
    let moved = ScreenView { timer: ticked(v.timer, now), now, ..v };
    let effects = notice_effects(tick_notices(v.timer, now));
    match v.target {
        Some(target) if !v.reached && work_shown(moved) >= target => (
            ScreenView { reached: true, ..moved },
            effects.push(Effect::TargetReached(target)),
            Some(Request::Reached),
        ),
        _ => (moved, effects, if save_due(v, now) { Some(Request::Save) } else { None }),
    }
}

/// What `msg` at the reading `now` does to a screen: the next state, what it shows or focuses,
/// and what it asks of the application.
pub open spec fn updated(v: ScreenView, msg: Msg, now: Clocks) -> (ScreenView, Seq<Effect>, Option<Request>) {
    let notices = notice_effects(tick_notices(v.timer, now));
    match msg {
        Msg::Tick => after_tick(v, now),
        Msg::Pause => (
            ScreenView {
                timer: if v.timer.paused {
                    resumed_at(ticked(v.timer, now))
                } else {
                    paused_at(ticked(v.timer, now))
                },
                now,
                ..v
            },
            notices,
            Some(Request::Save),
        ),
        Msg::Stop => (ScreenView { timer: ticked(v.timer, now), now, ..v }, Seq::empty(), Some(Request::Stop)),
        Msg::Note => (ScreenView { draft: Some(v.note), ..v }, seq![Effect::FocusNote], None),
        Msg::NoteTyped(text) => match v.draft {
            Some(_) => (ScreenView { draft: Some(text@), ..v }, Seq::empty(), None),
            None => (v, Seq::empty(), None),
        },
        Msg::NoteSubmit => match v.draft {
            None => (v, Seq::empty(), None),
            Some(draft) => {
                let note = trimmed(draft);
                (
                    ScreenView { draft: None, note, ..v },
                    if note.len() == 0 {
                        seq![Effect::FocusStop]
                    } else {
                        seq![Effect::NoteKept, Effect::FocusStop]
                    },
                    None,
                )
            },
        },
        Msg::NoteCancel => match v.draft {
            None => (v, Seq::empty(), None),
            Some(_) => (ScreenView { draft: None, ..v }, seq![Effect::Cancelled, Effect::FocusStop], None),
        },
        Msg::Idle(silent) => if silent {
            (
                ScreenView { timer: idled(ticked(v.timer, now), threshold_seconds(v.idle_after)), now, ..v },
                notices,
                Some(Request::Save),
            )
        } else {
            (
                ScreenView {
                    timer: back(ticked(v.timer, now)),
                    now,
                    asking_idle: v.asking_idle || v.timer.away,
                    ..v
                },
                notices,
                if v.timer.away { Some(Request::Save) } else { None },
            )
        },
        Msg::Claim(decision) => {
            let timer = claimed(back(ticked(v.timer, now)), decision);
            if back(ticked(v.timer, now)).idle_from is Some {
                (
                    ScreenView { timer, now, asking_idle: false, ..v },
                    seq![Effect::IdleClaimed(decision, silence_of(v.timer, now) as u64), Effect::FocusStop],
                    Some(Request::Save),
                )
            } else {
                (ScreenView { timer, asking_idle: false, ..v }, Seq::empty(), None)
            }
        },
    }
}

/// Seconds of work in `spans`, at most the largest `u64`.
fn capped_work_of(spans: &Vec<Span>) -> (seconds: u64)
    ensures
        seconds == capped_work(spans@),
{
    let total = crate::timer::work_total(spans.as_slice());
    if total > u64::MAX as u128 {
        u64::MAX
    } else {
        total as u64
    }
}

/// A passing message for each notice, in order, after `effects`.
fn push_notices(effects: &mut Vec<Effect>, notices: &Vec<Notice>)
    ensures
        final(effects)@ == old(effects)@ + notice_effects(notices@),
{
    let mut i: usize = 0;
    while i < notices.len()
        invariant
            i <= notices@.len(),
            effects@ == old(effects)@ + notice_effects(notices@.subrange(0, i as int)),
        decreases notices@.len() - i,
    {
        effects.push(Effect::Notice(notices[i]));
        proof {
            assert(notice_effects(notices@.subrange(0, i + 1)) =~= notice_effects(
                notices@.subrange(0, i as int),
            ).push(Effect::Notice(notices@[i as int])));
        }
        i = i + 1;
    }
    assert(notices@.subrange(0, notices@.len() as int) =~= notices@);
}

impl Screen {
    /// What holds of every screen: its timer is well formed.
    pub open spec fn wf(&self) -> bool {
        well_formed(self@.timer)
    }

    /// A screen over `timer`, which last saw the reading `now`, under the names of the category
    /// and the focus it counts. A counter carried on from a file may bring a silence nobody
    /// answered for, and then the question about it is open from the start.
    pub fn new(timer: Timer, now: Clocks, category: String, focus: String, detects_suspend: bool) -> (screen: Self)
        requires
            timer.wf(),
        ensures
            screen.wf(),
            screen@ == (ScreenView {
                timer: timer@,
                category: category@,
                focus: focus@,
                now,
                saved_at: now.wall,
                save_problem: None,
                note: Seq::empty(),
                draft: None,
                detects_suspend,
                asking_idle: timer@.idle_from is Some && !timer@.away,
                idle_after: IDLE_AFTER,
                target: None,
                reached: false,
            }),
    {
        let asking_idle = timer.has_unclaimed_idle();
        let screen = Screen {
            timer,
            category,
            focus,
            now,
            saved_at: now.wall,
            save_problem: None,
            note: String::new(),
            draft: None,
            detects_suspend,
            asking_idle,
            idle_after: IDLE_AFTER,
            target: None,
            reached: false,
        };
        assert(screen@.note =~= Seq::<char>::empty());
        screen
    }

    /// Counts down to `seconds` of work instead of up from zero; a counter already past it is
    /// reached from the start.
    pub fn target(self, seconds: u32) -> (screen: Self)
        requires
            self.wf(),
        ensures
            screen.wf(),
            screen@ == (ScreenView { target: Some(seconds), reached: work_shown(self@) >= seconds, ..self@ }),
    {
        let mut screen = self;
        let work = screen.work_seconds();
        screen.target = Some(seconds);
        screen.reached = work >= seconds as u64;
        screen
    }

    /// Sets how long the terminal may go without input before the work is idle, in seconds.
    pub fn idle_after(self, seconds: u64) -> (screen: Self)
        requires
            self.wf(),
        ensures
            screen.wf(),
            screen@ == (ScreenView { idle_after: seconds, ..self@ }),
    {
        let mut screen = self;
        screen.idle_after = seconds;
        screen
    }

    /// How long the terminal may go without input before the work is idle, in seconds; the
    /// application declares the watch with it while the counter runs.
    pub fn idle_threshold(&self) -> (seconds: u64)
        ensures
            seconds == self@.idle_after,
    {
        self.idle_after
    }

    /// The seconds of work the counter counts down to, when it has a countdown.
    pub fn countdown(&self) -> (target: Option<u32>)
        ensures
            target == self@.target,
    {
        self.target
    }

    /// Whether the countdown has been reached.
    pub fn is_reached(&self) -> (reached: bool)
        ensures
            reached == self@.reached,
    {
        self.reached
    }

    /// Whether the question about the latest silence is open.
    pub fn is_asking_idle(&self) -> (asking: bool)
        ensures
            asking == self@.asking_idle,
    {
        self.asking_idle
    }

    /// Whether no input has reached the terminal for a while, so the work is idle.
    pub fn is_away(&self) -> (away: bool)
        ensures
            away == self@.timer.away,
    {
        self.timer.is_away()
    }

    /// Whether a break is on.
    pub fn is_paused(&self) -> (paused: bool)
        ensures
            paused == self@.timer.paused,
    {
        self.timer.is_paused()
    }

    /// The focus being counted.
    pub fn focus(&self) -> (focus: Id)
        ensures
            focus == self@.timer.focus,
    {
        self.timer.focus()
    }

    /// The name of the focus being counted.
    pub fn focus_name(&self) -> (name: &str)
        ensures
            name@ == self@.focus,
    {
        self.focus.as_str()
    }

    /// The name of the category of the focus being counted.
    pub fn category_name(&self) -> (name: &str)
        ensures
            name@ == self@.category,
    {
        self.category.as_str()
    }

    /// The note kept for the record.
    pub fn note(&self) -> (note: &str)
        ensures
            note@ == self@.note,
    {
        self.note.as_str()
    }

    /// What is being typed into the note field, while it is open.
    pub fn draft(&self) -> (draft: Option<&str>)
        ensures
            text_of_str(draft) == self@.draft,
    {
        match &self.draft {
            Some(text) => Some(text.as_str()),
            None => None,
        }
    }

    /// Whether the note field is open.
    pub fn is_editing_note(&self) -> (editing: bool)
        ensures
            editing == self@.draft is Some,
    {
        self.draft.is_some()
    }

    /// Why the last write of the running file failed, until one succeeds.
    pub fn save_problem(&self) -> (problem: Option<&str>)
        ensures
            text_of_str(problem) == self@.save_problem,
    {
        match &self.save_problem {
            Some(text) => Some(text.as_str()),
            None => None,
        }
    }

    /// Whether this system can tell sleep apart.
    pub fn detects_suspend(&self) -> (detects: bool)
        ensures
            detects == self@.detects_suspend,
    {
        self.detects_suspend
    }

    /// The work a session is flagged over, in seconds.
    pub fn ceiling_seconds(&self) -> (seconds: u32)
        ensures
            seconds == self@.timer.ceiling,
    {
        self.timer.ceiling_seconds()
    }

    /// Seconds of work so far, as of the last reading.
    pub fn work_seconds(&self) -> (seconds: u64)
        requires
            self.wf(),
        ensures
            seconds == work_shown(self@),
    {
        let spans = self.timer.spans(self.now);
        capped_work_of(&spans)
    }

    /// What the big clock shows, in seconds: what is left of a countdown not reached yet, or the
    /// work so far.
    pub fn clock_seconds(&self) -> (seconds: u64)
        requires
            self.wf(),
        ensures
            seconds == clock_shown(self@),
    {
        let work = self.work_seconds();
        match self.target {
            Some(target) if !self.reached => (target as u64).saturating_sub(work),
            _ => work,
        }
    }

    /// Seconds of the latest silence as of the last reading; zero when there is none.
    pub fn silence_seconds(&self) -> (seconds: u32)
        requires
            self.wf(),
        ensures
            seconds == silence_of(self@.timer, self@.now),
    {
        self.timer.idle_seconds(self.now)
    }

    /// The counter as it stands at the last reading, for the running file.
    pub fn running(&self) -> (running: Running)
        requires
            self.wf(),
        ensures
            running@ == (RunningView {
                focus: self@.timer.focus,
                started: self@.timer.started,
                offset_minutes: self@.timer.offset_minutes,
                spans: spans_at(self@.timer, self@.now),
                paused: self@.timer.paused,
                refreshed: self@.now.wall,
                flags: self@.timer.flags,
                target: self@.target,
                idle_from: self@.timer.idle_from,
                watch: Watch::Window,
            }),
    {
        Running {
            focus: self.timer.focus(),
            started: self.timer.started(),
            offset_minutes: self.timer.offset_minutes(),
            spans: self.timer.spans(self.now),
            paused: self.timer.is_paused(),
            refreshed: self.now.wall,
            flags: vstd::slice::slice_to_vec(self.timer.flags()),
            target: self.target,
            idle_from: self.timer.unclaimed_idle_from(),
            watch: Watch::Window,
        }
    }

    /// Takes in how writing the running file went: a failure stays on screen until a write
    /// succeeds, and the counter goes on either way.
    pub fn saved(&mut self, result: Result<(), String>)
        ensures
            final(self)@ == (match result {
                Ok(()) => ScreenView { saved_at: old(self)@.now.wall, save_problem: None, ..old(self)@ },
                Err(reason) => ScreenView { save_problem: Some(reason@), ..old(self)@ },
            }),
    {
        match result {
            Ok(()) => {
                self.saved_at = self.now.wall;
                self.save_problem = None;
            },
            Err(reason) => self.save_problem = Some(reason),
        }
    }

    /// Ends the session at `now` as a record with `id`, carrying the note.
    pub fn finish(self, now: Clocks, id: Id) -> (session: Session)
        requires
            self.wf(),
        ensures
            session@ == (SessionView { note: self@.note, ..stopped(self@.timer, now, id, now.wall) }),
    {
        let note = self.note;
        let mut session = self.timer.stop(now, id, now.wall);
        session.note = note;
        session
    }
}

/// The text an optional borrowed string holds.
pub open spec fn text_of_str(text: Option<&str>) -> Option<Seq<char>> {
    match text {
        Some(text) => Some(text@),
        None => None,
    }
}

/// Applies `msg` at the reading `now` and says what the screen shows and what the application
/// should do.
pub fn update(screen: &mut Screen, msg: Msg, now: Clocks) -> (answer: (Vec<Effect>, Option<Request>))
    requires
        old(screen).wf(),
    ensures
        final(screen).wf(),
        final(screen)@ == updated(old(screen)@, msg, now).0,
        answer.0@ == updated(old(screen)@, msg, now).1,
        answer.1 == updated(old(screen)@, msg, now).2,
{
    let mut effects: Vec<Effect> = Vec::new();
    match msg {
        Msg::Tick => {
            let notices = screen.timer.tick(now);
            screen.now = now;
            push_notices(&mut effects, &notices);
            let due = sub_i64(now.wall, screen.saved_at) >= SAVE_EVERY;
            if let Some(target) = screen.target {
                if !screen.reached && screen.work_seconds() >= target as u64 {
                    screen.reached = true;
                    effects.push(Effect::TargetReached(target));
                    return (effects, Some(Request::Reached));
                }
            }
            (effects, if due { Some(Request::Save) } else { None })
        },
        Msg::Pause => {
            let notices = if screen.timer.is_paused() {
                screen.timer.resume(now)
            } else {
                screen.timer.pause(now)
            };
            screen.now = now;
            push_notices(&mut effects, &notices);
            (effects, Some(Request::Save))
        },
        Msg::Stop => {
            screen.timer.tick(now);
            screen.now = now;
            (effects, Some(Request::Stop))
        },
        Msg::Note => {
            screen.draft = Some(screen.note.clone());
            effects.push(Effect::FocusNote);
            (effects, None)
        },
        Msg::NoteTyped(text) => {
            if screen.draft.is_some() {
                screen.draft = Some(text);
            }
            (effects, None)
        },
        Msg::NoteSubmit => {
            let draft = match screen.draft.take() {
                Some(draft) => draft,
                None => return (effects, None),
            };
            let chars = crate::text::chars_of(draft.as_str());
            let note = trim(chars.as_slice());
            screen.note = string_of(&note);
            if note.len() > 0 {
                effects.push(Effect::NoteKept);
            }
            effects.push(Effect::FocusStop);
            (effects, None)
        },
        Msg::NoteCancel => {
            if screen.draft.take().is_some() {
                effects.push(Effect::Cancelled);
                effects.push(Effect::FocusStop);
            }
            (effects, None)
        },
        Msg::Idle(silent) => {
            if silent {
                // The silence began the threshold ago; the timer re-kinds what it measured since.
                let seconds: u32 = if screen.idle_after > u32::MAX as u64 {
                    u32::MAX
                } else {
                    screen.idle_after as u32
                };
                let notices = screen.timer.idle_since(now, seconds);
                screen.now = now;
                push_notices(&mut effects, &notices);
                (effects, Some(Request::Save))
            } else {
                let was_away = screen.timer.is_away();
                let notices = screen.timer.idle_over(now);
                screen.now = now;
                if was_away {
                    screen.asking_idle = true;
                }
                push_notices(&mut effects, &notices);
                (effects, if was_away { Some(Request::Save) } else { None })
            }
        },
        Msg::Claim(decision) => {
            screen.asking_idle = false;
            let seconds = screen.timer.idle_seconds(now) as u64;
            if !screen.timer.claim_idle(now, decision) {
                return (effects, None);
            }
            screen.now = now;
            effects.push(Effect::IdleClaimed(decision, seconds));
            effects.push(Effect::FocusStop);
            (effects, Some(Request::Save))
        },
    }
}

/// A countdown is announced once: once reached it stays reached whatever happens on the screen,
/// and a later tick asks for the running file at most, never for the countdown again.
pub proof fn law_a_countdown_is_announced_once(v: ScreenView, msg: Msg, now: Clocks)
    requires
        v.reached,
    ensures
        updated(v, msg, now).0.reached,
        updated(v, msg, now).2 != Some(Request::Reached),
{
}

/// A failed write of the running file stays on the screen until a write succeeds: nothing that
/// happens on the screen clears it or makes one up.
pub proof fn law_only_a_write_clears_a_save_problem(v: ScreenView, msg: Msg, now: Clocks)
    ensures
        updated(v, msg, now).0.save_problem == v.save_problem,
{
}

} // verus!
