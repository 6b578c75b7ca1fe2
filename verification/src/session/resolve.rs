//! Working out which version of a session is the one to show.
//!
//! Nothing is ever taken out of a file: a correction, a removal and an undo are all new lines. The
//! rule is one sentence: for a chain of identifiers the highest revision is the one that counts,
//! and a line that voids the chain takes it out of the lists.

use std::collections::{HashMap, HashSet};

use vstd::prelude::*;

use super::{Session, SessionView};
use super::line::{diagnostic_views, id_text, session_views};
use crate::diagnostics::{Diagnostic, DiagnosticView, Severity};
use crate::id::Id;
use crate::text::{decimal, push_str, push_u64, string_of};

verus! {

broadcast use vstd::std_specs::hash::group_hash_axioms;

/// The record `record` is a version of: what it replaces, else what it voids.
pub open spec fn link_of(record: SessionView) -> Option<Id> {
    match record.replaces {
        Some(target) => Some(target),
        None => record.voids,
    }
}

/// Which record each identifier is a version of, from the first `n` records; a later record with
/// the same identifier overrides an earlier one.
pub open spec fn parents_upto(records: Seq<SessionView>, n: int) -> Map<u128, u128>
    decreases n,
{
    if n <= 0 {
        Map::empty()
    } else {
        let before = parents_upto(records, n - 1);
        match link_of(records[n - 1]) {
            Some(target) => before.insert(records[n - 1].id.value(), target.value()),
            None => before,
        }
    }
}

/// Which record each identifier is a version of.
pub open spec fn parent_map(records: Seq<SessionView>) -> Map<u128, u128> {
    parents_upto(records, records.len() as int)
}

/// Where following `parents` from `current` for at most `steps` links ends.
pub open spec fn walk(parents: Map<u128, u128>, current: u128, steps: nat) -> u128
    decreases steps,
{
    if steps == 0 {
        current
    } else if parents.contains_key(current) {
        walk(parents, parents[current], (steps - 1) as nat)
    } else {
        current
    }
}

/// The first identifier of the chain `record` belongs to. A chain cannot be longer than the links
/// that made it, so the walk takes at most one step more than there are links.
pub open spec fn root_of(record: SessionView, parents: Map<u128, u128>) -> u128 {
    match link_of(record) {
        None => record.id.value(),
        Some(target) => walk(parents, target.value(), (parents.len() + 1) as nat),
    }
}

/// The first identifier of the chain `record` belongs to, among `records`.
pub open spec fn root_in(records: Seq<SessionView>, record: SessionView) -> u128 {
    root_of(record, parent_map(records))
}

/// Whether `a` counts over `b`: a higher revision, then a later write, then a larger identifier.
pub open spec fn above(a: SessionView, b: SessionView) -> bool {
    ||| a.revision > b.revision
    ||| a.revision == b.revision && a.written > b.written
    ||| a.revision == b.revision && a.written == b.written && a.id.value() > b.id.value()
}

/// The record of the first `n` of `chain` that counts; of records that tie on all three, the
/// later one.
pub open spec fn newest_upto(chain: Seq<SessionView>, n: int) -> Option<SessionView>
    decreases n,
{
    if n <= 0 {
        None
    } else {
        match newest_upto(chain, n - 1) {
            None => Some(chain[n - 1]),
            Some(best) => if above(best, chain[n - 1]) {
                Some(best)
            } else {
                Some(chain[n - 1])
            },
        }
    }
}

/// The record of `chain` that counts, or `None` for an empty chain.
pub open spec fn newest(chain: Seq<SessionView>) -> Option<SessionView> {
    newest_upto(chain, chain.len() as int)
}

/// The first `n` records whose chain starts at `root`, in order.
pub open spec fn chain_upto(records: Seq<SessionView>, root: u128, n: int) -> Seq<SessionView>
    decreases n,
{
    if n <= 0 {
        Seq::empty()
    } else if root_in(records, records[n - 1]) == root {
        chain_upto(records, root, n - 1).push(records[n - 1])
    } else {
        chain_upto(records, root, n - 1)
    }
}

/// The records whose chain starts at `root`, in order.
pub open spec fn chain(records: Seq<SessionView>, root: u128) -> Seq<SessionView> {
    chain_upto(records, root, records.len() as int)
}

/// The highest revision among the first `n` records of `chain`, zero for none.
pub open spec fn top_revision_upto(chain: Seq<SessionView>, n: int) -> u32
    decreases n,
{
    if n <= 0 {
        0
    } else {
        let before = top_revision_upto(chain, n - 1);
        if chain[n - 1].revision > before {
            chain[n - 1].revision
        } else {
            before
        }
    }
}

/// The first index of a record carrying `id`, if one does.
pub open spec fn first_with(records: Seq<SessionView>, id: Id) -> Option<int> {
    if exists|i: int| 0 <= i < records.len() && records[i].id == id {
        Some(choose|i: int| 0 <= i < records.len() && records[i].id == id && forall|j: int| 0 <= j < i ==> records[j].id != id)
    } else {
        None
    }
}

/// What [`newest_revision`] answers: the highest revision of the chain the first record carrying
/// `id` belongs to, or zero when no record carries `id`.
pub open spec fn newest_revision_of(records: Seq<SessionView>, id: Id) -> u32 {
    match first_with(records, id) {
        None => 0,
        Some(i) => {
            let root = root_in(records, records[i]);
            top_revision_upto(chain(records, root), chain(records, root).len() as int)
        },
    }
}

/// The root of each record, keyed by the record's own identifier, from the first `n` records; a
/// later record with the same identifier overrides an earlier one.
pub open spec fn roots_upto(records: Seq<SessionView>, n: int) -> Map<u128, Id>
    decreases n,
{
    if n <= 0 {
        Map::empty()
    } else {
        roots_upto(records, n - 1).insert(records[n - 1].id.value(), Id::of(root_in(records, records[n - 1])))
    }
}

/// Which record each identifier is a version of.
fn parents_of(records: &[Session]) -> (found: HashMap<u128, u128>)
    ensures
        found@ == parent_map(session_views(records@)),
{
    let ghost views = session_views(records@);
    let mut found: HashMap<u128, u128> = HashMap::new();
    let mut i: usize = 0;
    while i < records.len()
        invariant
            i <= records@.len(),
            views == session_views(records@),
            found@ == parents_upto(views, i as int),
        decreases records@.len() - i,
    {
        let record = &records[i];
        let target = match record.replaces {
            Some(target) => Some(target),
            None => record.voids,
        };
        if let Some(target) = target {
            found.insert(record.id.bits(), target.bits());
        }
        i = i + 1;
    }
    found
}

/// The first identifier of the chain `record` belongs to.
///
/// When the chain points at a record that is not in the file, the identifier it points at comes
/// back; the caller sees that no record carries it and keeps the correction as an orphan.
fn root_of_record(record: &Session, parents: &HashMap<u128, u128>) -> (root: u128)
    ensures
        root == root_of(record@, parents@),
{
    let target = match record.replaces {
        Some(target) => Some(target),
        None => record.voids,
    };
    let mut current = match target {
        None => return record.id.bits(),
        Some(target) => target.bits(),
    };
    let mut left: u128 = parents.len() as u128 + 1;
    // A chain cannot be longer than the links that made it, so this walk always ends, even when a
    // damaged file points two records at each other.
    while left > 0
        invariant
            root_of(record@, parents@) == walk(parents@, current, left as nat),
        decreases left,
    {
        match parents.get(&current) {
            Some(next) => current = *next,
            None => {
                assert(!parents@.contains_key(current));
                return current;
            },
        }
        left = left - 1;
    }
    current
}

/// Whether `a` counts over `b`.
fn is_above(a: &Session, b: &Session) -> (over: bool)
    ensures
        over == above(a@, b@),
{
    a.revision > b.revision || (a.revision == b.revision && a.written > b.written) || (a.revision == b.revision
        && a.written == b.written && a.id.bits() > b.id.bits())
}

/// The record of `chain` that counts: the highest revision, then the latest write, then the
/// largest identifier so two machines always agree.
fn newest_of(chain: &[Session]) -> (best: Option<Session>)
    ensures
        match best {
            Some(best) => newest(session_views(chain@)) == Some(best@),
            None => newest(session_views(chain@)) is None,
        },
{
    let ghost views = session_views(chain@);
    let mut best: Option<usize> = None;
    let mut i: usize = 0;
    while i < chain.len()
        invariant
            i <= chain@.len(),
            views == session_views(chain@),
            match best {
                Some(k) => k < i && newest_upto(views, i as int) == Some(views[k as int]),
                None => i == 0,
            },
        decreases chain@.len() - i,
    {
        best = match best {
            None => Some(i),
            Some(k) => if is_above(&chain[k], &chain[i]) {
                Some(k)
            } else {
                Some(i)
            },
        };
        i = i + 1;
    }
    match best {
        Some(k) => Some(chain[k].copy()),
        None => None,
    }
}

/// The highest revision any record of the chain `id` belongs to carries, or zero when no record
/// carries `id`. A record that is to win the chain needs a revision above this.
pub fn newest_revision(records: &[Session], id: Id) -> (revision: u32)
    ensures
        revision == newest_revision_of(session_views(records@), id),
{
    let ghost views = session_views(records@);
    let parents = parents_of(records);
    let mut i: usize = 0;
    while i < records.len()
        invariant
            i <= records@.len(),
            views == session_views(records@),
            forall|j: int| 0 <= j < i ==> views[j].id != id,
        ensures
            i <= records@.len(),
            i < records@.len() ==> views[i as int].id == id,
            forall|j: int| 0 <= j < i ==> views[j].id != id,
        decreases records@.len() - i,
    {
        if records[i].id == id {
            break;
        }
        i = i + 1;
    }
    if i == records.len() {
        return 0;
    }
    proof {
        assert(views[i as int].id == id);
        let k = first_with(views, id).unwrap();
        assert(k == i);
    }
    let root = root_of_record(&records[i], &parents);
    let mut top: u32 = 0;
    let mut j: usize = 0;
    let ghost members: Seq<SessionView> = Seq::empty();
    while j < records.len()
        invariant
            j <= records@.len(),
            views == session_views(records@),
            parents@ == parent_map(views),
            chain_upto(views, root, j as int) == members,
            top == top_revision_upto(members, members.len() as int),
        decreases records@.len() - j,
    {
        let r = root_of_record(&records[j], &parents);
        if r == root {
            if records[j].revision > top {
                top = records[j].revision;
            }
            proof {
                members = members.push(views[j as int]);
                assert(members.drop_last() =~= chain_upto(views, root, j as int));
                lemma_top_revision_prefix(members, members.len() - 1);
            }
        }
        j = j + 1;
    }
    top
}

/// The top revision of a prefix only looks at the prefix.
proof fn lemma_top_revision_prefix(chain: Seq<SessionView>, n: int)
    requires
        0 <= n <= chain.len(),
    ensures
        top_revision_upto(chain, n) == top_revision_upto(chain.subrange(0, n), n),
    decreases n,
{
    if n > 0 {
        lemma_top_revision_prefix(chain, n - 1);
        lemma_top_revision_prefix(chain.subrange(0, n), n - 1);
        assert(chain.subrange(0, n).subrange(0, n - 1) =~= chain.subrange(0, n - 1));
    }
}

/// The root of each record, keyed by the record's own identifier.
pub struct Roots {
    by_record: HashMap<u128, Id>,
}

impl View for Roots {
    type V = Map<u128, Id>;

    closed spec fn view(&self) -> Map<u128, Id> {
        self.by_record@
    }
}

impl Roots {
    /// The root of the record `id`, if a record carries `id`.
    pub fn get(&self, id: &Id) -> (root: Option<&Id>)
        ensures
            match root {
                Some(root) => self@.contains_key(id.value()) && self@[id.value()] == *root,
                None => !self@.contains_key(id.value()),
            },
    {
        self.by_record.get(&id.bits())
    }

    /// How many records have a root here.
    pub fn len(&self) -> (count: usize)
        ensures
            count == self@.len(),
    {
        self.by_record.len()
    }
}

/// The first identifier of the chain each record belongs to, keyed by the record's own
/// identifier: the same grouping [`resolve`] makes, for a caller that has to find every line of a
/// chain.
pub fn roots(records: &[Session]) -> (found: Roots)
    ensures
        found@ == roots_upto(session_views(records@), records@.len() as int),
{
    let ghost views = session_views(records@);
    let parents = parents_of(records);
    let mut by_record: HashMap<u128, Id> = HashMap::new();
    let mut i: usize = 0;
    while i < records.len()
        invariant
            i <= records@.len(),
            views == session_views(records@),
            parents@ == parent_map(views),
            by_record@ == roots_upto(views, i as int),
        decreases records@.len() - i,
    {
        let root = root_of_record(&records[i], &parents);
        by_record.insert(records[i].id.bits(), Id::from_bits(root));
        i = i + 1;
    }
    Roots { by_record }
}

/// Whether a record of `records` carries the identifier `value`.
pub open spec fn carried(records: Seq<SessionView>, value: u128) -> bool {
    exists|i: int| 0 <= i < records.len() && records[i].id.value() == value
}

/// Whether `record` corrects a record that is not among `records`.
pub open spec fn is_orphan(records: Seq<SessionView>, record: SessionView) -> bool {
    !carried(records, root_in(records, record))
}

/// What is said of an orphan.
pub open spec fn orphan_message(record: SessionView) -> Seq<char> {
    "correction "@ + id_text(record.id) + " replaces a record that is not here"@
}

/// What is said of a chain two records claim the top of.
pub open spec fn fork_message(revision: u32, root: u128) -> Seq<char> {
    "two records claim to be version "@ + decimal(revision as nat) + " of "@ + id_text(Id::of(root))
}

/// A warning that points at no place.
pub open spec fn warning(message: Seq<char>) -> DiagnosticView {
    DiagnosticView { severity: Severity::Warning, location: None, message }
}

/// The orphans among the first `n` records, in order.
pub open spec fn orphans_upto(records: Seq<SessionView>, n: int) -> Seq<SessionView>
    decreases n,
{
    if n <= 0 {
        Seq::empty()
    } else if is_orphan(records, records[n - 1]) {
        orphans_upto(records, n - 1).push(records[n - 1])
    } else {
        orphans_upto(records, n - 1)
    }
}

/// The warnings about the orphans among the first `n` records, in order.
pub open spec fn orphan_notes_upto(records: Seq<SessionView>, n: int) -> Seq<DiagnosticView>
    decreases n,
{
    if n <= 0 {
        Seq::empty()
    } else if is_orphan(records, records[n - 1]) {
        orphan_notes_upto(records, n - 1).push(warning(orphan_message(records[n - 1])))
    } else {
        orphan_notes_upto(records, n - 1)
    }
}

/// The roots of the chains among the first `n` records whose first record is here.
pub open spec fn root_set_upto(records: Seq<SessionView>, n: int) -> Set<u128> {
    Set::new(|x: u128| exists|i: int| 0 <= i < n && root_in(records, records[i]) == x && carried(records, x))
}

/// The roots of the chains whose first record is here.
pub open spec fn root_set(records: Seq<SessionView>) -> Set<u128> {
    root_set_upto(records, records.len() as int)
}

/// Whether every value of `s` is below the next.
pub open spec fn increasing(s: Seq<u128>) -> bool {
    forall|i: int, j: int| 0 <= i < j < s.len() ==> s[i] < s[j]
}

/// The roots of the chains whose first record is here, from the smallest up.
pub open spec fn chain_roots(records: Seq<SessionView>) -> Seq<u128> {
    choose|s: Seq<u128>| increasing(s) && s.to_set() == root_set(records)
}

/// The records of the first `n` of `chain` that void nothing, in order.
pub open spec fn kept_upto(chain: Seq<SessionView>, n: int) -> Seq<SessionView>
    decreases n,
{
    if n <= 0 {
        Seq::empty()
    } else if chain[n - 1].voids is None {
        kept_upto(chain, n - 1).push(chain[n - 1])
    } else {
        kept_upto(chain, n - 1)
    }
}

/// The records of `chain` that void nothing, in order.
pub open spec fn kept(chain: Seq<SessionView>) -> Seq<SessionView> {
    kept_upto(chain, chain.len() as int)
}

/// How many of the first `n` records of `chain` carry `revision`.
pub open spec fn same_revision_upto(chain: Seq<SessionView>, revision: u32, n: int) -> nat
    decreases n,
{
    if n <= 0 {
        0
    } else {
        same_revision_upto(chain, revision, n - 1) + if chain[n - 1].revision == revision { 1nat } else { 0nat }
    }
}

/// Whether two records of the chain starting at `root` claim its top revision.
pub open spec fn forked(records: Seq<SessionView>, root: u128) -> bool {
    let c = chain(records, root);
    match newest(c) {
        Some(winner) => same_revision_upto(c, winner.revision, c.len() as int) > 1,
        None => false,
    }
}

/// The sessions to show, from the chains of the first `n` of `roots`.
pub open spec fn sessions_upto(records: Seq<SessionView>, roots: Seq<u128>, n: int) -> Seq<SessionView>
    decreases n,
{
    if n <= 0 {
        Seq::empty()
    } else {
        let before = sessions_upto(records, roots, n - 1);
        match newest(chain(records, roots[n - 1])) {
            Some(winner) => if winner.voids is None {
                before.push(winner)
            } else {
                before
            },
            None => before,
        }
    }
}

/// The sessions taken out of the lists, from the chains of the first `n` of `roots`, each as its
/// last version that voids nothing.
pub open spec fn voided_upto(records: Seq<SessionView>, roots: Seq<u128>, n: int) -> Seq<SessionView>
    decreases n,
{
    if n <= 0 {
        Seq::empty()
    } else {
        let before = voided_upto(records, roots, n - 1);
        let c = chain(records, roots[n - 1]);
        match newest(c) {
            Some(winner) => if winner.voids is Some {
                match newest(kept(c)) {
                    Some(last) => before.push(last),
                    None => before,
                }
            } else {
                before
            },
            None => before,
        }
    }
}

/// The forked chains among the first `n` of `roots`.
pub open spec fn forks_upto(records: Seq<SessionView>, roots: Seq<u128>, n: int) -> Seq<Id>
    decreases n,
{
    if n <= 0 {
        Seq::empty()
    } else if forked(records, roots[n - 1]) {
        forks_upto(records, roots, n - 1).push(Id::of(roots[n - 1]))
    } else {
        forks_upto(records, roots, n - 1)
    }
}

/// The warnings about the forked chains among the first `n` of `roots`.
pub open spec fn fork_notes_upto(records: Seq<SessionView>, roots: Seq<u128>, n: int) -> Seq<DiagnosticView>
    decreases n,
{
    if n <= 0 {
        Seq::empty()
    } else if forked(records, roots[n - 1]) {
        fork_notes_upto(records, roots, n - 1).push(
            warning(fork_message(newest(chain(records, roots[n - 1])).unwrap().revision, roots[n - 1])),
        )
    } else {
        fork_notes_upto(records, roots, n - 1)
    }
}

/// What the records in a file add up to, as values.
pub struct ResolutionView {
    pub sessions: Seq<SessionView>,
    pub voided: Seq<SessionView>,
    pub orphans: Seq<SessionView>,
    pub forks: Seq<Id>,
    pub diagnostics: Seq<DiagnosticView>,
}

/// What [`resolve`] makes of `records`.
pub open spec fn resolution_of(records: Seq<SessionView>) -> ResolutionView {
    let roots = chain_roots(records);
    ResolutionView {
        sessions: sessions_upto(records, roots, roots.len() as int),
        voided: voided_upto(records, roots, roots.len() as int),
        orphans: orphans_upto(records, records.len() as int),
        forks: forks_upto(records, roots, roots.len() as int),
        diagnostics: orphan_notes_upto(records, records.len() as int) + fork_notes_upto(records, roots, roots.len() as int),
    }
}

/// What the records in a file add up to.
#[derive(Debug, Clone, Default)]
pub struct Resolution {
    /// The sessions to show, one per chain.
    pub sessions: Vec<Session>,
    /// Sessions taken out of the lists, each as its last version before the removal: what the
    /// trash shows and what an undo brings back.
    pub voided: Vec<Session>,
    /// Corrections of records that are not here, kept so a person's work is never dropped in
    /// silence.
    pub orphans: Vec<Session>,
    /// Chains two records claim to be the newest version of, for a person to sort out.
    pub forks: Vec<Id>,
    /// Everything worth telling the person about.
    pub diagnostics: Vec<Diagnostic>,
}

impl View for Resolution {
    type V = ResolutionView;

    open spec fn view(&self) -> ResolutionView {
        ResolutionView {
            sessions: session_views(self.sessions@),
            voided: session_views(self.voided@),
            orphans: session_views(self.orphans@),
            forks: self.forks@,
            diagnostics: diagnostic_views(self.diagnostics@),
        }
    }
}

/// Two increasing sequences that hold the same values are the same sequence.
proof fn lemma_increasing_unique(a: Seq<u128>, b: Seq<u128>)
    requires
        increasing(a),
        increasing(b),
        a.to_set() == b.to_set(),
    ensures
        a == b,
    decreases a.len(),
{
    if a.len() == 0 {
        if b.len() > 0 {
            assert(b.to_set().contains(b[0]));
        }
        assert(a =~= b);
    } else {
        assert(a.to_set().contains(a[0]));
        assert(b.len() > 0);
        assert(b.to_set().contains(b[0]));
        assert(a[0] == b[0]) by {
            assert(b.contains(a[0]));
            assert(a.contains(b[0]));
            let i = choose|i: int| 0 <= i < b.len() && b[i] == a[0];
            let j = choose|j: int| 0 <= j < a.len() && a[j] == b[0];
            if i > 0 {
                assert(b[0] < b[i]);
            }
            if j > 0 {
                assert(a[0] < a[j]);
            }
        }
        let a1 = a.drop_first();
        let b1 = b.drop_first();
        assert(a1.to_set() =~= b1.to_set()) by {
            assert forall|x: u128| a1.to_set().contains(x) implies b1.to_set().contains(x) by {
                let i = choose|i: int| 0 <= i < a1.len() && a1[i] == x;
                assert(a[i + 1] == x);
                assert(a.to_set().contains(x));
                assert(b.contains(x));
                let j = choose|j: int| 0 <= j < b.len() && b[j] == x;
                assert(a[0] < a[i + 1]);
                assert(j != 0);
                assert(b1[j - 1] == x);
            }
            assert forall|x: u128| b1.to_set().contains(x) implies a1.to_set().contains(x) by {
                let i = choose|i: int| 0 <= i < b1.len() && b1[i] == x;
                assert(b[i + 1] == x);
                assert(b.to_set().contains(x));
                assert(a.contains(x));
                let j = choose|j: int| 0 <= j < a.len() && a[j] == x;
                assert(b[0] < b[i + 1]);
                assert(j != 0);
                assert(a1[j - 1] == x);
            }
        }
        lemma_increasing_unique(a1, b1);
        assert(a =~= seq![a[0]] + a1);
        assert(b =~= seq![b[0]] + b1);
    }
}

/// Puts `value` into the increasing `sorted`, where it belongs, unless it is there already.
fn insert_sorted(sorted: &mut Vec<u128>, value: u128)
    requires
        increasing(old(sorted)@),
    ensures
        increasing(final(sorted)@),
        final(sorted)@.to_set() == old(sorted)@.to_set().insert(value),
{
    let mut i: usize = 0;
    while i < sorted.len() && sorted[i] < value
        invariant
            i <= sorted@.len(),
            forall|j: int| 0 <= j < i ==> sorted@[j] < value,
        decreases sorted@.len() - i,
    {
        i = i + 1;
    }
    let ghost before = sorted@;
    if i < sorted.len() && sorted[i] == value {
        assert(before.to_set().insert(value) =~= before.to_set());
        return;
    }
    sorted.insert(i, value);
    assert(sorted@.to_set() =~= before.to_set().insert(value)) by {
        assert forall|x: u128| sorted@.to_set().contains(x) implies before.to_set().insert(value).contains(x) by {
            let k = choose|k: int| 0 <= k < sorted@.len() && sorted@[k] == x;
            if k < i {
                assert(before[k] == x);
            } else if k > i {
                assert(before[k - 1] == x);
            }
        }
        assert forall|x: u128| before.to_set().insert(value).contains(x) implies sorted@.to_set().contains(x) by {
            if x == value {
                assert(sorted@[i as int] == value);
            } else {
                let k = choose|k: int| 0 <= k < before.len() && before[k] == x;
                if k < i {
                    assert(sorted@[k] == x);
                } else {
                    assert(sorted@[k + 1] == x);
                }
            }
        }
    }
}

/// The identifiers the records carry.
fn known_ids(records: &Vec<Session>) -> (known: HashSet<u128>)
    ensures
        forall|x: u128| known@.contains(x) == carried(session_views(records@), x),
{
    let ghost views = session_views(records@);
    let mut known: HashSet<u128> = HashSet::new();
    let mut i: usize = 0;
    while i < records.len()
        invariant
            i <= records@.len(),
            views == session_views(records@),
            forall|x: u128| known@.contains(x) == exists|j: int| 0 <= j < i && views[j].id.value() == x,
        decreases records@.len() - i,
    {
        known.insert(records[i].id.bits());
        assert forall|x: u128| known@.contains(x) == exists|j: int| 0 <= j < i + 1 && views[j].id.value() == x by {
            if x == views[i as int].id.value() {
                assert(0 <= i < i + 1 && views[i as int].id.value() == x);
            }
        }
        i = i + 1;
    }
    known
}

/// The records whose root is `root`, in order, given the root of each record.
fn chain_for(records: &Vec<Session>, roots_of: &Vec<u128>, root: u128) -> (found: Vec<Session>)
    requires
        roots_of@.len() == records@.len(),
        forall|j: int| 0 <= j < records@.len() ==> roots_of@[j] == root_in(session_views(records@), records@[j]@),
    ensures
        session_views(found@) == chain(session_views(records@), root),
{
    let ghost views = session_views(records@);
    let mut found: Vec<Session> = Vec::new();
    let mut j: usize = 0;
    while j < records.len()
        invariant
            j <= records@.len(),
            views == session_views(records@),
            roots_of@.len() == records@.len(),
            forall|k: int| 0 <= k < records@.len() ==> roots_of@[k] == root_in(views, records@[k]@),
            session_views(found@) == chain_upto(views, root, j as int),
        decreases records@.len() - j,
    {
        if roots_of[j] == root {
            let copy = records[j].copy();
            found.push(copy);
            assert(session_views(found@) =~= chain_upto(views, root, j as int).push(views[j as int]));
        }
        j = j + 1;
    }
    found
}

/// How many records of `chain` carry `revision`.
fn count_revision(chain: &Vec<Session>, revision: u32) -> (count: usize)
    ensures
        count == same_revision_upto(session_views(chain@), revision, chain@.len() as int),
{
    let ghost views = session_views(chain@);
    let mut count: usize = 0;
    let mut j: usize = 0;
    while j < chain.len()
        invariant
            j <= chain@.len(),
            views == session_views(chain@),
            count == same_revision_upto(views, revision, j as int),
            count <= j,
        decreases chain@.len() - j,
    {
        if chain[j].revision == revision {
            count = count + 1;
        }
        j = j + 1;
    }
    count
}

/// The records of `chain` that void nothing, in order.
fn kept_of(chain: &Vec<Session>) -> (found: Vec<Session>)
    ensures
        session_views(found@) == kept(session_views(chain@)),
{
    let ghost views = session_views(chain@);
    let mut found: Vec<Session> = Vec::new();
    let mut j: usize = 0;
    while j < chain.len()
        invariant
            j <= chain@.len(),
            views == session_views(chain@),
            session_views(found@) == kept_upto(views, j as int),
        decreases chain@.len() - j,
    {
        if chain[j].voids.is_none() {
            let copy = chain[j].copy();
            found.push(copy);
            assert(session_views(found@) =~= kept_upto(views, j as int).push(views[j as int]));
        }
        j = j + 1;
    }
    found
}

/// What is said of an orphan, as a string.
fn orphan_text(record: &Session) -> (text: String)
    ensures
        text@ == orphan_message(record@),
{
    let mut out: Vec<char> = Vec::new();
    push_str(&mut out, "correction ");
    record.id.write_to(&mut out);
    push_str(&mut out, " replaces a record that is not here");
    string_of(&out)
}

/// What is said of a forked chain, as a string.
fn fork_text(revision: u32, root: u128) -> (text: String)
    ensures
        text@ == fork_message(revision, root),
{
    let mut out: Vec<char> = Vec::new();
    push_str(&mut out, "two records claim to be version ");
    push_u64(&mut out, revision as u64);
    push_str(&mut out, " of ");
    Id::from_bits(root).write_to(&mut out);
    string_of(&out)
}

/// Works out the current version of every session in `records`.
///
/// The order records arrive in does not matter: a correction written a month later, in another
/// file, resolves the same way.
pub fn resolve(records: Vec<Session>) -> (resolution: Resolution)
    ensures
        resolution@ == resolution_of(session_views(records@)),
{
    let ghost views = session_views(records@);
    let parents = parents_of(records.as_slice());
    let known = known_ids(&records);
    let mut roots_of: Vec<u128> = Vec::new();
    let mut sorted: Vec<u128> = Vec::new();
    let mut orphans: Vec<Session> = Vec::new();
    let mut diagnostics: Vec<Diagnostic> = Vec::new();
    let mut i: usize = 0;
    while i < records.len()
        invariant
            i <= records@.len(),
            views == session_views(records@),
            parents@ == parent_map(views),
            forall|x: u128| known@.contains(x) == carried(views, x),
            roots_of@.len() == i,
            forall|j: int| 0 <= j < i ==> roots_of@[j] == root_in(views, records@[j]@),
            increasing(sorted@),
            sorted@.to_set() == root_set_upto(views, i as int),
            session_views(orphans@) == orphans_upto(views, i as int),
            diagnostic_views(diagnostics@) == orphan_notes_upto(views, i as int),
        decreases records@.len() - i,
    {
        let root = root_of_record(&records[i], &parents);
        assert(root == root_in(views, views[i as int]));
        roots_of.push(root);
        let ghost before = sorted@.to_set();
        if known.contains(&root) {
            insert_sorted(&mut sorted, root);
            assert(sorted@.to_set() =~= root_set_upto(views, i + 1)) by {
                assert forall|x: u128| root_set_upto(views, i + 1).contains(x) implies sorted@.to_set().contains(x) by {
                    if x != root {
                        let j = choose|j: int| 0 <= j < i + 1 && root_in(views, views[j]) == x && carried(views, x);
                        assert(j < i);
                        assert(root_set_upto(views, i as int).contains(x));
                    }
                }
                assert forall|x: u128| sorted@.to_set().contains(x) implies root_set_upto(views, i + 1).contains(x) by {
                    if x == root {
                        assert(0 <= i < i + 1 && root_in(views, views[i as int]) == x && carried(views, x));
                    } else {
                        assert(before.contains(x));
                        let j = choose|j: int| 0 <= j < i && root_in(views, views[j]) == x && carried(views, x);
                        assert(0 <= j < i + 1 && root_in(views, views[j]) == x && carried(views, x));
                    }
                }
            }
        } else {
            let message = orphan_text(&records[i]);
            diagnostics.push(Diagnostic::warning(None, message));
            let copy = records[i].copy();
            orphans.push(copy);
            assert(session_views(orphans@) =~= orphans_upto(views, i as int).push(views[i as int]));
            assert(diagnostic_views(diagnostics@) =~= orphan_notes_upto(views, i as int).push(
                warning(orphan_message(views[i as int])),
            ));
            assert(sorted@.to_set() =~= root_set_upto(views, i + 1)) by {
                assert forall|x: u128| root_set_upto(views, i + 1).contains(x) implies sorted@.to_set().contains(x) by {
                    let j = choose|j: int| 0 <= j < i + 1 && root_in(views, views[j]) == x && carried(views, x);
                    assert(j < i);
                    assert(root_set_upto(views, i as int).contains(x));
                }
                assert forall|x: u128| sorted@.to_set().contains(x) implies root_set_upto(views, i + 1).contains(x) by {
                    let j = choose|j: int| 0 <= j < i && root_in(views, views[j]) == x && carried(views, x);
                    assert(0 <= j < i + 1 && root_in(views, views[j]) == x && carried(views, x));
                }
            }
        }
        i = i + 1;
    }
    proof {
        let c = chain_roots(views);
        assert(increasing(sorted@) && sorted@.to_set() == root_set(views));
        assert(increasing(c) && c.to_set() == root_set(views));
        lemma_increasing_unique(c, sorted@);
    }
    let ghost orphan_notes = diagnostic_views(diagnostics@);
    let mut sessions: Vec<Session> = Vec::new();
    let mut voided: Vec<Session> = Vec::new();
    let mut forks: Vec<Id> = Vec::new();
    let mut k: usize = 0;
    while k < sorted.len()
        invariant
            k <= sorted@.len(),
            views == session_views(records@),
            roots_of@.len() == records@.len(),
            forall|j: int| 0 <= j < records@.len() ==> roots_of@[j] == root_in(views, records@[j]@),
            session_views(sessions@) == sessions_upto(views, sorted@, k as int),
            session_views(voided@) == voided_upto(views, sorted@, k as int),
            forks@ == forks_upto(views, sorted@, k as int),
            diagnostic_views(diagnostics@) == orphan_notes + fork_notes_upto(views, sorted@, k as int),
        decreases sorted@.len() - k,
    {
        let root = sorted[k];
        let members = chain_for(&records, &roots_of, root);
        match newest_of(members.as_slice()) {
            None => {},
            Some(winner) => {
                let count = count_revision(&members, winner.revision);
                if count > 1 {
                    forks.push(Id::from_bits(root));
                    let message = fork_text(winner.revision, root);
                    let note = Diagnostic::warning(None, message);
                    assert(note@ == warning(fork_message(winner.revision, root)));
                    let ghost old_notes = diagnostics@;
                    diagnostics.push(note);
                    assert(diagnostic_views(diagnostics@) =~= diagnostic_views(old_notes).push(warning(fork_message(winner.revision, root))));
                    assert(diagnostic_views(diagnostics@) =~= orphan_notes + fork_notes_upto(views, sorted@, k as int).push(
                        warning(fork_message(winner.revision, root)),
                    ));
                }
                if winner.voids.is_some() {
                    let kept = kept_of(&members);
                    match newest_of(kept.as_slice()) {
                        Some(last) => {
                            voided.push(last);
                            assert(session_views(voided@) =~= voided_upto(views, sorted@, k as int).push(last@));
                        },
                        None => {},
                    }
                } else {
                    let ghost w = winner@;
                    sessions.push(winner);
                    assert(session_views(sessions@) =~= sessions_upto(views, sorted@, k as int).push(w));
                }
            },
        }
        k = k + 1;
    }
    Resolution { sessions, voided, orphans, forks, diagnostics }
}

} // verus!
