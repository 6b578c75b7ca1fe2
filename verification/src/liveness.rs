//! How far a running counter reaches: up to now, or up to the last moment it is known to have
//! been alive.
//!
//! Sleep counts; time the machine was off, or the program was not running, does not. A counter a
//! window measures is alive while that window is. A counter nobody measures, started from the
//! command line or left running by a window, is alive as long as the machine has not restarted
//! since the last proof that it was on: the file's `refreshed` stamp, or the moment a command last
//! looked at it ([`Seen`]).
//!
//! Nothing here reads a clock, a file or a lock. The running file, the stamp, the clocks and the
//! answer to "does a window hold the lock" all come in as values, so every case can be replayed.

use vstd::prelude::*;

use crate::arith::clamp_i64;
use crate::calendar::{date_of_unix, local_moment, moment_at};
use crate::store::paths::{padded, push_padded};
use crate::text::string_of;
use crate::store::running::{Running, RunningView, Watch};
use crate::store::seen::Seen;
use crate::timer::{Clocks, NANOS};

verus! {

/// Seconds a window's refresh may be old before the window is asked whether it is still there.
/// A window refreshes every few seconds, so an older stamp means it is gone or the machine just
/// woke up and it has not ticked yet.
pub const WINDOW_STALE: i64 = 30;

/// Seconds the machine's boot may lie after the last proof before it counts as a restart. Wall
/// clock corrections move the computed boot moment a little; a machine that restarts within this
/// margin of the proof has at most this much of its off time counted.
pub const RESTART_MARGIN: i64 = 60;

/// Seconds between two stamps a command writes for a counter nobody measures, so a status bar
/// asking every second writes at most once a minute.
pub const SEEN_EVERY: i64 = 60;

/// Why a counter stopped counting before now.
#[derive(Debug, Clone, Copy, PartialEq, Eq, Structural)]
pub enum Reason {
    /// The machine restarted since the counter was last known alive.
    Restart,
    /// The window that measured the counter is gone.
    WindowGone,
}

impl Reason {
    /// The word used for it in JSON answers.
    pub fn word(self) -> (word: &'static str)
        ensures
            word@ == (match self {
                Reason::Restart => "restart"@,
                Reason::WindowGone => "window-gone"@,
            }),
    {
        match self {
            Reason::Restart => "restart",
            Reason::WindowGone => "window-gone",
        }
    }
}

/// Where a counter stopped counting, and why.
#[derive(Debug, Clone, Copy, PartialEq, Eq, Structural)]
pub struct Cut {
    /// The last moment it is known to have been alive, in seconds since the Unix epoch.
    pub at: i64,
    /// Why it counts no further.
    pub reason: Reason,
}

/// How far a counter reaches.
#[derive(Debug, Clone, Copy, PartialEq, Eq, Structural)]
pub struct Reach {
    /// The wall second the counter counts to; never before its `refreshed` stamp.
    pub until: i64,
    /// Where and why it was cut, when it does not reach now.
    pub cut: Option<Cut>,
}

/// A counter alive up to `wall`, and never before its refresh.
pub open spec fn alive(running: RunningView, wall: i64) -> Reach {
    Reach { until: if wall >= running.refreshed { wall } else { running.refreshed }, cut: None }
}

/// A counter that stopped at `at` because of `reason`.
pub open spec fn cut_at(at: i64, reason: Reason) -> Reach {
    Reach { until: at, cut: Some(Cut { at, reason }) }
}

/// Whole seconds since boot on the clock that counts sleep, held to an `i64`.
pub open spec fn since_boot(now: Clocks) -> int {
    if (now.uptime.elapsed / NANOS) as int > i64::MAX {
        i64::MAX as int
    } else {
        (now.uptime.elapsed / NANOS) as int
    }
}

/// Whether the machine booted more than [`RESTART_MARGIN`] seconds after `proof`. The boot moment
/// is the wall clock minus the time since boot; without that clock nothing can be said.
pub open spec fn restarted(proof: i64, now: Clocks, knows_boot: bool) -> bool {
    knows_boot && clamp_i64(now.wall - since_boot(now)) > clamp_i64(proof + RESTART_MARGIN)
}

/// The last moment `running` is known to have been alive: its refresh, or a later stamp that
/// belongs to it.
pub open spec fn last_proof_of(running: RunningView, seen: Option<Seen>) -> i64 {
    match seen {
        Some(seen) => if seen.started == running.started && seen.seen >= running.refreshed {
            seen.seen
        } else {
            running.refreshed
        },
        None => running.refreshed,
    }
}

/// A counter whose window is gone ends at its last refresh; the restart is named when there was
/// one, as it says more than a window that went away.
pub open spec fn window_gone_of(running: RunningView, now: Clocks, knows_boot: bool) -> Reach {
    cut_at(
        running.refreshed,
        if restarted(running.refreshed, now, knows_boot) {
            Reason::Restart
        } else {
            Reason::WindowGone
        },
    )
}

/// Whether the window that measures `running` has to be asked whether it is still there: its
/// last refresh is more than [`WINDOW_STALE`] seconds old.
pub open spec fn asks_window(running: RunningView, now: Clocks) -> bool {
    running.watch == Watch::Window && clamp_i64(now.wall - running.refreshed) > WINDOW_STALE
}

/// How far `running` reaches at `now`, given what the window answered when it was asked.
pub open spec fn reach_of(running: RunningView, seen: Option<Seen>, now: Clocks, knows_boot: bool, window_alive: bool) -> Reach {
    match running.watch {
        Watch::Window => if !asks_window(running, now) || window_alive {
            alive(running, now.wall)
        } else {
            window_gone_of(running, now, knows_boot)
        },
        Watch::Nobody => {
            let proof = last_proof_of(running, seen);
            if restarted(proof, now, knows_boot) {
                cut_at(proof, Reason::Restart)
            } else {
                alive(running, now.wall)
            }
        },
    }
}

/// How far `running` reaches at `now` for an instance that holds the lock, so knows no window
/// measures the counter.
pub open spec fn reach_without_window_of(running: RunningView, seen: Option<Seen>, now: Clocks, knows_boot: bool) -> Reach {
    match running.watch {
        Watch::Window => window_gone_of(running, now, knows_boot),
        Watch::Nobody => reach_of(running, seen, now, knows_boot, false),
    }
}

/// The stamp a command looking at `running` at `now` should leave, when it should leave one.
pub open spec fn stamp_of(running: RunningView, seen: Option<Seen>, reach: Reach, now: i64, knows_boot: bool) -> Option<Seen> {
    if running.watch == Watch::Nobody && knows_boot && reach.cut is None && clamp_i64(now - last_proof_of(running, seen))
        >= SEEN_EVERY {
        Some(Seen { started: running.started, seen: now })
    } else {
        None
    }
}

/// A counter alive up to `wall`.
fn alive_reach(running: &Running, wall: i64) -> (reach: Reach)
    ensures
        reach == alive(running@, wall),
{
    Reach {
        until: if wall >= running.refreshed {
            wall
        } else {
            running.refreshed
        },
        cut: None,
    }
}

/// A counter that stopped at `at` because of `reason`.
fn cut_reach(at: i64, reason: Reason) -> (reach: Reach)
    ensures
        reach == cut_at(at, reason),
{
    Reach { until: at, cut: Some(Cut { at, reason }) }
}

/// The last moment `running` is known to have been alive.
pub fn last_proof(running: &Running, seen: Option<&Seen>) -> (proof: i64)
    ensures
        proof == last_proof_of(running@, seen_of_spec(seen)),
{
    match seen {
        Some(seen) => if seen.started == running.started && seen.seen >= running.refreshed {
            seen.seen
        } else {
            running.refreshed
        },
        None => running.refreshed,
    }
}

/// The stamp behind a reference, as a value.
pub open spec fn seen_of_spec(seen: Option<&Seen>) -> Option<Seen> {
    match seen {
        Some(s) => Some(*s),
        None => None,
    }
}

/// Whether the machine booted more than [`RESTART_MARGIN`] seconds after `proof`.
pub fn restarted_since(proof: i64, now: Clocks, knows_boot: bool) -> (found: bool)
    ensures
        found == restarted(proof, now, knows_boot),
{
    if !knows_boot {
        return false;
    }
    let whole: u128 = now.uptime.elapsed / NANOS;
    let since: i64 = if whole > i64::MAX as u128 {
        i64::MAX
    } else {
        whole as i64
    };
    let boot = crate::arith::sub_i64(now.wall, since);
    boot > crate::arith::add_i64(proof, RESTART_MARGIN)
}

/// A counter whose window is gone ends at its last refresh.
fn window_gone(running: &Running, now: Clocks, knows_boot: bool) -> (reach: Reach)
    ensures
        reach == window_gone_of(running@, now, knows_boot),
{
    let reason = if restarted_since(running.refreshed, now, knows_boot) {
        Reason::Restart
    } else {
        Reason::WindowGone
    };
    cut_reach(running.refreshed, reason)
}

/// How far a counter nobody measures reaches at `now`.
fn reach_alone(running: &Running, seen: Option<&Seen>, now: Clocks, knows_boot: bool) -> (reach: Reach)
    requires
        running.watch == Watch::Nobody,
    ensures
        reach == reach_of(running@, seen_of_spec(seen), now, knows_boot, false),
{
    let proof = last_proof(running, seen);
    if restarted_since(proof, now, knows_boot) {
        cut_reach(proof, Reason::Restart)
    } else {
        alive_reach(running, now.wall)
    }
}

/// How far `running` reaches at `now`.
///
/// `seen` is the stamp a command left, used only when it belongs to this counter. `knows_boot`
/// says whether `now.uptime.elapsed` counts from the machine's boot, sleep included, which is
/// what makes a restart visible; where it does not, a counter nobody measures counts up to now,
/// as other command line trackers do. `window_alive` answers whether a window still holds the
/// lock; it is asked only for a counter a window measures whose last refresh is more than
/// [`WINDOW_STALE`] seconds old.
pub fn reach(running: &Running, seen: Option<&Seen>, now: Clocks, knows_boot: bool, window_alive: impl FnOnce() -> bool) -> (reach: Reach)
    requires
        call_requires(window_alive, ()),
    ensures
        asks_window(running@, now) ==> exists|answer: bool|
            call_ensures(window_alive, (), answer) && reach == reach_of(running@, seen_of_spec(seen), now, knows_boot, answer),
        !asks_window(running@, now) ==> reach == reach_of(running@, seen_of_spec(seen), now, knows_boot, false),
{
    match running.watch {
        Watch::Window => {
            let age = crate::arith::sub_i64(now.wall, running.refreshed);
            if age <= WINDOW_STALE {
                return alive_reach(running, now.wall);
            }
            let answer = window_alive();
            let found = if answer {
                alive_reach(running, now.wall)
            } else {
                window_gone(running, now, knows_boot)
            };
            assert(call_ensures(window_alive, (), answer) && found == reach_of(
                running@,
                seen_of_spec(seen),
                now,
                knows_boot,
                answer,
            ));
            found
        },
        Watch::Nobody => reach_alone(running, seen, now, knows_boot),
    }
}

/// How far `running` reaches at `now` for an instance that holds the lock, so knows no window
/// measures the counter: one that did ended at its last refresh, however recent. A counter
/// nobody measures reaches as far as [`reach`] says.
pub fn reach_without_window(running: &Running, seen: Option<&Seen>, now: Clocks, knows_boot: bool) -> (reach: Reach)
    ensures
        reach == reach_without_window_of(running@, seen_of_spec(seen), now, knows_boot),
{
    match running.watch {
        Watch::Window => window_gone(running, now, knows_boot),
        Watch::Nobody => reach_alone(running, seen, now, knows_boot),
    }
}

/// The stamp a command looking at `running` at `now` should leave, when it should leave one: the
/// counter is one nobody measures, it reaches now on a machine that can tell a restart, and the
/// last proof is at least [`SEEN_EVERY`] seconds old.
pub fn stamp_to_leave(running: &Running, seen: Option<&Seen>, reach: &Reach, now: i64, knows_boot: bool) -> (stamp: Option<Seen>)
    ensures
        stamp == stamp_of(running@, seen_of_spec(seen), *reach, now, knows_boot),
{
    let due = crate::arith::sub_i64(now, last_proof(running, seen)) >= SEEN_EVERY;
    if running.watch == Watch::Nobody && knows_boot && reach.cut.is_none() && due {
        Some(Seen { started: running.started, seen: now })
    } else {
        None
    }
}

/// A counter never reaches back before its last refresh; one that is not cut reaches now, or its
/// refresh when the wall clock stands behind it; a cut counter reaches exactly the moment it was
/// cut at, and a restart is only ever named where the machine can tell its boot.
pub proof fn law_a_counter_reaches_at_least_its_refresh(
    running: RunningView,
    seen: Option<Seen>,
    now: Clocks,
    knows_boot: bool,
    window_alive: bool,
)
    ensures
        reach_of(running, seen, now, knows_boot, window_alive).until >= running.refreshed,
        reach_without_window_of(running, seen, now, knows_boot).until >= running.refreshed,
        reach_of(running, seen, now, knows_boot, window_alive).cut matches Some(c) ==> c.at == reach_of(
            running,
            seen,
            now,
            knows_boot,
            window_alive,
        ).until,
        reach_of(running, seen, now, knows_boot, window_alive).cut is None ==> reach_of(
            running,
            seen,
            now,
            knows_boot,
            window_alive,
        ).until == if now.wall >= running.refreshed { now.wall } else { running.refreshed },
        reach_of(running, seen, now, knows_boot, window_alive).cut matches Some(c) ==> (c.reason == Reason::Restart
            ==> knows_boot),
        reach_without_window_of(running, seen, now, knows_boot).cut matches Some(c) ==> c.at == reach_without_window_of(
            running,
            seen,
            now,
            knows_boot,
        ).until && (c.reason == Reason::Restart ==> knows_boot),
        reach_without_window_of(running, seen, now, knows_boot).cut is None ==> reach_without_window_of(
            running,
            seen,
            now,
            knows_boot,
        ).until == if now.wall >= running.refreshed { now.wall } else { running.refreshed },
{
}

/// Where the machine cannot tell its boot, a counter nobody measures is never cut: it counts up
/// to now, or to its refresh when the wall clock stands behind it.
pub proof fn law_without_the_boot_a_counter_nobody_measures_counts_to_now(
    running: RunningView,
    seen: Option<Seen>,
    now: Clocks,
    window_alive: bool,
)
    requires
        running.watch == Watch::Nobody,
    ensures
        reach_of(running, seen, now, false, window_alive) == alive(running, now.wall),
{
}

/// What the words for a moment are made of: its local clock time and, when it lies on another
/// local day than the moment it is read at, its day of the month and its month.
#[derive(Debug, Clone, Copy, PartialEq, Eq)]
pub struct MomentParts {
    pub hour: u8,
    pub minute: u8,
    /// The day of the month and the month, for a moment on another day.
    pub other_day: Option<(u8, u8)>,
}

/// The parts of the words for the moment `at`, read at `now`, both in an offset of
/// `offset_minutes`: the clock time, with the day and the month in front when `at` lies on
/// another local day than `now`.
pub open spec fn parts_of(at: i64, now: i64, offset_minutes: i16) -> MomentParts {
    let moment = moment_at(at, offset_minutes);
    MomentParts {
        hour: moment.hour,
        minute: moment.minute,
        other_day: if date_of_unix(at, offset_minutes) == date_of_unix(now, offset_minutes) {
            None
        } else {
            Some((moment.day, moment.month))
        },
    }
}

/// The parts of the words for the moment `at` (a cut, say) read at `now`: its clock time, and
/// its day and month when it lies on another local day than `now`. Both are read in the offset
/// given, the one in force where the person is now.
pub fn moment_parts(at: i64, now: i64, offset_minutes: i16) -> (parts: MomentParts)
    ensures
        parts == parts_of(at, now, offset_minutes),
{
    let moment = local_moment(at, offset_minutes);
    let today = local_moment(now, offset_minutes);
    let same_day = moment.year == today.year && moment.month == today.month && moment.day == today.day;
    MomentParts {
        hour: moment.hour,
        minute: moment.minute,
        other_day: if same_day { None } else { Some((moment.day, moment.month)) },
    }
}

/// A clock time as `HH:MM`.
pub open spec fn clock_text(hour: u8, minute: u8) -> Seq<char> {
    padded(hour as int, 2) + seq![':'] + padded(minute as int, 2)
}

/// The clock time of `parts` as `HH:MM`, the same in every language.
pub fn clock_words(parts: &MomentParts) -> (text: String)
    ensures
        text@ == clock_text(parts.hour, parts.minute),
{
    let mut out: Vec<char> = Vec::new();
    push_padded(&mut out, parts.hour as i64, 2);
    out.push(':');
    push_padded(&mut out, parts.minute as i64, 2);
    assert(out@ =~= clock_text(parts.hour, parts.minute));
    string_of(&out)
}

} // verus!
