//! The data on disk: where it lives, the running counter, the seen stamp and what a purge takes.

pub mod paths;
pub mod purge;
pub mod reader;
pub mod running;
pub mod sessions;
pub mod seen;

use vstd::prelude::*;

use crate::id::Id;
use crate::session::{Session, SessionView};
use crate::session::line::session_views;
use crate::calendar::date_of_unix;
use crate::session::resolve::{chain, first_with, link_of, newest_revision, newest_revision_of, root_in, top_revision_upto};
use crate::store::sessions::month_of;

verus! {

/// Whether this instance may write.
#[derive(Debug, Clone, Copy, PartialEq, Eq, Structural)]
pub enum Access {
    /// This instance holds the lock and writes.
    Writer,
    /// Another instance holds the lock; this one only reads until it wins the lock.
    ReadOnly {
        /// The process id the lock file names, for a message only; it may be stale.
        holder: Option<u32>,
    },
    /// This platform has no advisory lock in the framework. The instance writes, and the person
    /// is told that a second instance would not be noticed.
    NoLock,
}

impl Access {
    /// Whether writing is allowed.
    pub fn can_write(self) -> (allowed: bool)
        ensures
            allowed == !(self is ReadOnly),
    {
        match self {
            Access::ReadOnly { .. } => false,
            _ => true,
        }
    }
}

/// `revision + 1`, held to a `u32`.
pub open spec fn next_revision(revision: u32) -> u32 {
    if revision == u32::MAX {
        u32::MAX
    } else {
        (revision + 1) as u32
    }
}

/// The record that takes `session` out of the lists: the same session under the identifier `id`,
/// with a revision above every one of its chain among `records`, written at `now`, voiding it.
pub open spec fn removal_of(records: Seq<SessionView>, session: SessionView, id: Id, now: i64) -> SessionView {
    SessionView {
        id,
        revision: next_revision(newest_revision_of(records, session.id)),
        written: now,
        replaces: None,
        voids: Some(session.id),
        ..session
    }
}

/// The record that brings `session` back from the trash: the same session under the identifier
/// `id`, with a revision above the removal's, written at `now`, replacing it.
pub open spec fn revival_of(records: Seq<SessionView>, session: SessionView, id: Id, now: i64) -> SessionView {
    SessionView {
        id,
        revision: next_revision(newest_revision_of(records, session.id)),
        written: now,
        replaces: Some(session.id),
        voids: None,
        ..session
    }
}

/// The record that takes `session` out of the lists; see [`removal_of`].
pub fn removal(records: &[Session], session: &Session, id: Id, now: i64) -> (record: Session)
    ensures
        record@ == removal_of(session_views(records@), session@, id, now),
{
    let mut record = session.copy();
    record.id = id;
    record.revision = newest_revision(records, session.id).saturating_add(1);
    record.written = now;
    record.replaces = None;
    record.voids = Some(session.id);
    record
}

/// The record that brings `session` back from the trash; see [`revival_of`].
pub fn revival(records: &[Session], session: &Session, id: Id, now: i64) -> (record: Session)
    ensures
        record@ == revival_of(session_views(records@), session@, id, now),
{
    let mut record = session.copy();
    record.id = id;
    record.revision = newest_revision(records, session.id).saturating_add(1);
    record.written = now;
    record.replaces = Some(session.id);
    record.voids = None;
    record
}

/// The highest revision of a chain is at least that of each of its first `n` records.
proof fn lemma_top_revision(c: Seq<SessionView>, n: int)
    requires
        0 <= n <= c.len(),
    ensures
        forall|j: int| 0 <= j < n ==> #[trigger] c[j].revision <= top_revision_upto(c, n),
    decreases n,
{
    if n > 0 {
        lemma_top_revision(c, n - 1);
    }
}

/// An undo revives what it undoes: below the largest revision there is, a record that brings a
/// session back, and likewise one that takes it out, carries a revision above every record of
/// the chain the session belongs to, so it is the one that counts.
pub proof fn law_a_revival_outranks_its_whole_chain(records: Seq<SessionView>, session: SessionView, id: Id, now: i64, member: SessionView)
    requires
        newest_revision_of(records, session.id) < u32::MAX,
        first_with(records, session.id) matches Some(i) && chain(records, root_in(records, records[i])).contains(member),
    ensures
        revival_of(records, session, id, now).revision > member.revision,
        removal_of(records, session, id, now).revision > member.revision,
{
    let i = first_with(records, session.id).unwrap();
    let c = chain(records, root_in(records, records[i]));
    lemma_top_revision(c, c.len() as int);
    let j = choose|j: int| 0 <= j < c.len() && c[j] == member;
    assert(c[j].revision <= top_revision_upto(c, c.len() as int));
}

/// Where following `current`'s links through `records` for at most `steps` links ends: at a
/// record that links to nothing, or to nothing that is here.
pub open spec fn chain_walk(records: Seq<SessionView>, current: SessionView, steps: nat) -> SessionView
    decreases steps,
{
    if steps == 0 {
        current
    } else {
        match link_of(current) {
            None => current,
            Some(parent) => match first_with(records, parent) {
                Some(k) => chain_walk(records, records[k], (steps - 1) as nat),
                None => current,
            },
        }
    }
}

/// The first record of `records` that carries `id`, if one does.
fn index_of(records: &[Session], id: Id) -> (found: Option<usize>)
    ensures
        match found {
            Some(k) => first_with(session_views(records@), id) == Some(k as int) && k < records@.len(),
            None => first_with(session_views(records@), id) is None,
        },
{
    let ghost views = session_views(records@);
    let mut k: usize = 0;
    while k < records.len()
        invariant
            k <= records@.len(),
            views == session_views(records@),
            forall|j: int| 0 <= j < k ==> views[j].id != id,
        decreases records@.len() - k,
    {
        if records[k].id == id {
            proof {
                let f = first_with(views, id).unwrap();
                assert(views[k as int].id == id);
                assert(f == k);
            }
            return Some(k);
        }
        k = k + 1;
    }
    None
}

/// The month file `session` belongs in: the month of the root of its chain, when the chain is
/// known among `records`, else its own. A chain is as long as the records it goes through; the
/// bound only guards against a cycle in a hand-edited file.
pub fn month_for(records: &[Session], session: &Session) -> (month: (i32, u8))
    ensures
        month.0 == date_of_unix(
            chain_walk(session_views(records@), session@, (records@.len() + 1) as nat).started,
            chain_walk(session_views(records@), session@, (records@.len() + 1) as nat).offset_minutes,
        ).0,
        month.1 == date_of_unix(
            chain_walk(session_views(records@), session@, (records@.len() + 1) as nat).started,
            chain_walk(session_views(records@), session@, (records@.len() + 1) as nat).offset_minutes,
        ).1,
{
    let ghost views = session_views(records@);
    let mut root: &Session = session;
    let mut left: u128 = records.len() as u128 + 1;
    while left > 0
        invariant
            views == session_views(records@),
            chain_walk(views, session@, (records@.len() + 1) as nat) == chain_walk(views, root@, left as nat),
        ensures
            chain_walk(views, session@, (records@.len() + 1) as nat) == root@,
        decreases left,
    {
        let parent = match root.replaces {
            Some(parent) => parent,
            None => match root.voids {
                Some(parent) => parent,
                None => break,
            },
        };
        assert(link_of(root@) == Some(parent));
        match index_of(records, parent) {
            Some(k) => {
                assert(views[k as int] == records@[k as int]@);
                root = &records[k];
            },
            None => break,
        }
        left = left - 1;
    }
    month_of(root)
}

} // verus!
