//! Building the records a person writes by hand: a session typed in after the fact, and a
//! correction of one already on disk.
//!
//! Nothing here touches a file. A correction is a new session that replaces the old one with a
//! higher revision; the store puts it in the right month. Time typed by a person was not measured
//! by any clock, so it is written as one work span from the wall clock: the file says exactly what
//! is known and nothing more.

use vstd::prelude::*;

use super::{Flag, Session, SessionView, Source};
use crate::arith::{add_i64, clamp_i64};
use crate::id::Id;
use crate::span::{ClockSource, Span, SpanKind, work_of};

verus! {

/// What a person typed into the record form.
#[derive(Debug, Clone, PartialEq, Eq)]
pub struct Changes {
    /// The focus the session belongs to.
    pub focus: Id,
    /// When it began, in seconds since the Unix epoch.
    pub started: i64,
    /// Minutes the local time was ahead of UTC when it began.
    pub offset_minutes: i16,
    /// Seconds of work.
    pub seconds: u32,
    /// The note, already trimmed.
    pub note: String,
}

/// `flags` without any `flag`.
pub open spec fn without(flags: Seq<Flag>, flag: Flag) -> Seq<Flag>
    decreases flags.len(),
{
    if flags.len() == 0 {
        flags
    } else {
        let rest = without(flags.drop_last(), flag);
        if flags.last() == flag {
            rest
        } else {
            rest.push(flags.last())
        }
    }
}

/// The one span of time typed by a person: `seconds` of work from the wall clock.
pub open spec fn typed_spans(seconds: u32) -> Seq<Span> {
    seq![Span { kind: SpanKind::Work, offset: 0, seconds, clock: ClockSource::Wall }]
}

/// Whether `changes` move the time of `session`: its start or its work.
pub open spec fn moves(changes: Changes, session: SessionView) -> bool {
    changes.started != session.started || changes.seconds != work_of(session.spans)
}

/// What [`adjusted`] gives.
pub open spec fn adjusted_spec(session: SessionView, changes: Changes) -> SessionView {
    if moves(changes, session) {
        SessionView {
            focus: changes.focus,
            note: changes.note@,
            started: changes.started,
            offset_minutes: changes.offset_minutes,
            ended: clamp_i64(changes.started + changes.seconds) as i64,
            spans: typed_spans(changes.seconds),
            flags: without(session.flags, Flag::OverCeiling),
            ..session
        }
    } else {
        SessionView { focus: changes.focus, note: changes.note@, ..session }
    }
}

impl Changes {
    /// The form's starting values for `session`: its focus, start, offset, work and note.
    pub fn of(session: &Session) -> (changes: Self)
        requires
            work_of(session.spans@) <= u64::MAX,
        ensures
            changes.focus == session.focus,
            changes.started == session.started,
            changes.offset_minutes == session.offset_minutes,
            changes.seconds == if work_of(session.spans@) > u32::MAX {
                u32::MAX as int
            } else {
                work_of(session.spans@)
            },
            changes.note == session.note,
    {
        let work = session.work_seconds();
        Self {
            focus: session.focus,
            started: session.started,
            offset_minutes: session.offset_minutes,
            seconds: if work > u32::MAX as u64 { u32::MAX } else { work as u32 },
            note: session.note.clone(),
        }
    }

    /// Whether the time differs from the session's: its start or its work.
    pub fn moves_time(&self, session: &Session) -> (moved: bool)
        requires
            work_of(session.spans@) <= u64::MAX,
        ensures
            moved == moves(*self, session@),
    {
        self.started != session.started || self.seconds as u64 != session.work_seconds()
    }
}

/// A session typed in by hand: one work span measured by nothing but the person, with `id`,
/// written at `written`.
pub fn manual(changes: &Changes, id: Id, written: i64) -> (session: Session)
    ensures
        session@ == (SessionView {
            id,
            revision: 1,
            written,
            focus: changes.focus,
            started: changes.started,
            offset_minutes: changes.offset_minutes,
            ended: clamp_i64(changes.started + changes.seconds) as i64,
            spans: typed_spans(changes.seconds),
            source: Source::Manual,
            replaces: None,
            voids: None,
            continues: None,
            flags: Seq::empty(),
            note: changes.note@,
        }),
{
    let mut spans: Vec<Span> = Vec::new();
    spans.push(Span::new(SpanKind::Work, 0, changes.seconds, ClockSource::Wall));
    assert(spans@ =~= typed_spans(changes.seconds));
    Session {
        id,
        revision: 1,
        written,
        focus: changes.focus,
        started: changes.started,
        offset_minutes: changes.offset_minutes,
        ended: add_i64(changes.started, changes.seconds as i64),
        spans,
        source: Source::Manual,
        replaces: None,
        voids: None,
        continues: None,
        flags: Vec::new(),
        note: changes.note.clone(),
    }
}

/// `flags` without any `flag`, in order.
pub fn remove_flag(flags: &Vec<Flag>, flag: Flag) -> (kept: Vec<Flag>)
    ensures
        kept@ == without(flags@, flag),
{
    let mut kept: Vec<Flag> = Vec::new();
    let mut i: usize = 0;
    while i < flags.len()
        invariant
            i <= flags@.len(),
            kept@ == without(flags@.subrange(0, i as int), flag),
        decreases flags@.len() - i,
    {
        assert(flags@.subrange(0, i + 1).drop_last() =~= flags@.subrange(0, i as int));
        if flags[i] != flag {
            kept.push(flags[i]);
        }
        i = i + 1;
    }
    assert(flags@.subrange(0, flags@.len() as int) =~= flags@);
    kept
}

/// `session` with `changes` applied, keeping its identity: what the timer stops with once the
/// person has fixed a duration over the ceiling.
///
/// A change to the time rebuilds the spans as one work span from the wall clock: the measured
/// breaks and sleeps do not fit a length the person set. The `over-ceiling` flag goes with them,
/// since the person has now said how long the session was. A change to the focus or the note
/// alone keeps the spans, the end and every flag as they were measured.
pub fn adjusted(session: &Session, changes: &Changes) -> (fixed: Session)
    requires
        work_of(session.spans@) <= u64::MAX,
    ensures
        fixed@ == adjusted_spec(session@, *changes),
{
    let mut adjusted = session.copy();
    adjusted.focus = changes.focus;
    adjusted.note = changes.note.clone();
    if changes.moves_time(session) {
        adjusted.started = changes.started;
        adjusted.offset_minutes = changes.offset_minutes;
        adjusted.ended = add_i64(changes.started, changes.seconds as i64);
        let mut spans: Vec<Span> = Vec::new();
        spans.push(Span::new(SpanKind::Work, 0, changes.seconds, ClockSource::Wall));
        assert(spans@ =~= typed_spans(changes.seconds));
        adjusted.spans = spans;
        adjusted.flags = remove_flag(&session.flags, Flag::OverCeiling);
    }
    adjusted
}

/// The correction of `original` by `changes`, recorded as `id` written at `written`: the next
/// revision of the same chain, made by editing, replacing `original` and voiding nothing.
pub open spec fn corrected(original: SessionView, changes: Changes, id: Id, written: i64) -> SessionView {
    SessionView {
        id,
        revision: if original.revision == u32::MAX { u32::MAX } else { (original.revision + 1) as u32 },
        written,
        source: Source::Edited,
        replaces: Some(original.id),
        voids: None,
        ..adjusted_spec(original, changes)
    }
}

/// A correction that moves no time, one that keeps the start and the work, keeps what was
/// measured: the spans, the start, the end, the offset, the flags and what it continues are the
/// original's, and only the focus and the note are the ones the person gave.
pub proof fn law_a_correction_that_moves_no_time_keeps_what_was_measured(
    original: SessionView,
    changes: Changes,
    id: Id,
    written: i64,
)
    requires
        !moves(changes, original),
    ensures
        ({
            let fixed = corrected(original, changes, id, written);
            &&& fixed.spans == original.spans
            &&& fixed.started == original.started
            &&& fixed.ended == original.ended
            &&& fixed.offset_minutes == original.offset_minutes
            &&& fixed.flags == original.flags
            &&& fixed.continues == original.continues
            &&& fixed.focus == changes.focus
            &&& fixed.note == changes.note@
            &&& fixed.revision == if original.revision == u32::MAX { u32::MAX as int } else { original.revision + 1 }
            &&& fixed.replaces == Some(original.id)
            &&& fixed.voids is None
            &&& fixed.source == Source::Edited
            &&& fixed.id == id
            &&& fixed.written == written
        }),
{
}

/// A correction of `original` with `changes`: a new record `id`, written at `written`, one
/// revision above the original and replacing it. The spans and the flags follow [`adjusted`].
pub fn correction(original: &Session, changes: &Changes, id: Id, written: i64) -> (fixed: Session)
    requires
        work_of(original.spans@) <= u64::MAX,
    ensures
        fixed@ == corrected(original@, *changes, id, written),
{
    let base = adjusted(original, changes);
    Session {
        id,
        revision: original.revision.saturating_add(1),
        written,
        source: Source::Edited,
        replaces: Some(original.id),
        voids: None,
        ..base
    }
}

} // verus!
