//! The recovery dialog: what to do with a counter the last run left on disk.
//!
//! The dialog says why the counter stopped counting: the computer restarted, or the program
//! closed, and nothing after that moment counts. The duration shown is the work up to there.
//!
//! The counter is kept, continued or thrown away, and the person has to choose; the dialog
//! cannot be waved off, because starting another counter would overwrite the file. A file that
//! cannot be read is shown with what was wrong and where it now is: moved aside under a
//! time-stamped name so a new counter cannot overwrite it, or left in place, with the reason,
//! when it could not be moved or this instance may not write.

use vstd::prelude::*;

use crate::diagnostics::Diagnostic;
use crate::liveness::{Reach, Reason};
use crate::store::running::{Running, spans_until_of};
use crate::span::work_of;

verus! {

/// What was found on disk.
#[derive(Debug, Clone)]
pub enum Recover {
    /// A counter that can be brought back.
    Found {
        /// The counter as its last refresh left it.
        running: Running,
        /// The name of its focus, when the catalogue still has it.
        focus: Option<String>,
        /// Seconds since its last refresh, at the moment the dialog opened.
        ago: u64,
        /// How far it reaches: where it was cut and why, when it was.
        reach: Reach,
    },
    /// A file that could not be read, with what was wrong and what became of it.
    Broken {
        /// What was wrong.
        problems: Vec<Diagnostic>,
        /// Where the file is now.
        path: String,
        /// Whether it was moved aside or left where it was.
        kept: Kept,
    },
}

/// What became of a running file that could not be read.
#[derive(Debug, Clone, PartialEq, Eq)]
pub enum Kept {
    /// Moved aside to the path in [`Recover::Broken`], so a new counter cannot overwrite it.
    Aside,
    /// Left where it was because moving it failed, for the reason given.
    Stuck(String),
    /// Left where it was because another instance holds the lock and this one may not write.
    Untouched,
}

/// What was chosen.
#[derive(Debug, Clone, Copy, PartialEq, Eq, Structural)]
pub enum Msg {
    /// Record the counter as a session that ended where it was last alive.
    Save,
    /// Carry the counter on from where it was; the time it was not alive stays out.
    Continue,
    /// Throw the counter away.
    Discard,
    /// Close the report of a broken file.
    Close,
}

/// What the dialog over a counter that was found tells, besides its focus and its work.
#[derive(Debug, Clone, Copy, PartialEq, Eq, Structural)]
pub enum Telling {
    /// The computer restarted; the counter counts to the moment `at`, in seconds since the Unix
    /// epoch, when it was last known alive.
    Restarted { at: i64 },
    /// The program closed; it was last known alive `ago` seconds before the dialog opened.
    Closed { ago: u64 },
    /// It was not cut; it was last refreshed `ago` seconds before the dialog opened.
    Left { ago: u64 },
}

/// What the dialog tells of a counter that reaches as far as `reach`, last refreshed `ago`
/// seconds before it opened.
pub open spec fn telling_of(reach: Reach, ago: u64) -> Telling {
    match reach.cut {
        Some(cut) => if cut.reason == Reason::Restart {
            Telling::Restarted { at: cut.at }
        } else {
            Telling::Closed { ago }
        },
        None => Telling::Left { ago },
    }
}

/// What the dialog tells of a counter that reaches as far as `reach`, last refreshed `ago`
/// seconds before it opened: a restart names the moment it was cut at, a closed window and a
/// plain leftover say how long ago it was last seen.
pub fn telling(reach: Reach, ago: u64) -> (told: Telling)
    ensures
        told == telling_of(reach, ago),
{
    match reach.cut {
        Some(cut) => match cut.reason {
            Reason::Restart => Telling::Restarted { at: cut.at },
            Reason::WindowGone => Telling::Closed { ago },
        },
        None => Telling::Left { ago },
    }
}

impl Recover {
    /// For a counter that was found: what the dialog tells and the seconds of work up to where
    /// the counter reaches, the duration it shows. `None` for a file that could not be read.
    pub fn found_report(&self) -> (report: Option<(Telling, u64)>)
        requires
            self matches Recover::Found { running, reach, .. } ==> work_of(spans_until_of(running@, reach.until))
                <= u64::MAX,
        ensures
            match self {
                Recover::Found { running, ago, reach, .. } => report == Some(
                    (telling_of(*reach, *ago), work_of(spans_until_of(running@, reach.until)) as u64),
                ),
                Recover::Broken { .. } => report is None,
            },
    {
        match self {
            Recover::Found { running, ago, reach, .. } => {
                let work = running.work_until(reach.until);
                Some((telling(*reach, *ago), work))
            },
            Recover::Broken { .. } => None,
        }
    }
}

} // verus!
