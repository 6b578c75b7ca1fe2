use qfocus::id::Id;
use qfocus::session::resolve::{newest_revision, resolve, roots};
use qfocus::session::{Session, Source};
use qfocus::span::{ClockSource, Span, SpanKind};

fn record(id: Id, revision: u32, written: i64, replaces: Option<Id>, voids: Option<Id>) -> Session {
    Session {
        id,
        revision,
        written,
        focus: Id::new(1, 1),
        started: 1_758_124_800,
        offset_minutes: 0,
        ended: 1_758_124_900,
        spans: vec![Span::new(SpanKind::Work, 0, 100, ClockSource::Mono)],
        source: Source::Timer,
        replaces,
        voids,
        continues: None,
        flags: Vec::new(),
        note: String::new(),
    }
}

fn id(n: u128) -> Id {
    Id::new(1_000 + u64::try_from(n).unwrap_or(0), n)
}

#[test]
fn a_single_record_survives() {
    let resolution = resolve(vec![record(id(1), 1, 10, None, None)]);
    assert_eq!(resolution.sessions.len(), 1);
    assert!(resolution.diagnostics.is_empty());
}

#[test]
fn the_highest_revision_wins() {
    let first = record(id(1), 1, 10, None, None);
    let second = record(id(2), 2, 20, Some(id(1)), None);
    let resolution = resolve(vec![first, second.clone()]);
    assert_eq!(resolution.sessions, vec![second]);
}

#[test]
fn order_in_the_file_does_not_matter() {
    let first = record(id(1), 1, 10, None, None);
    let second = record(id(2), 2, 20, Some(id(1)), None);
    let forwards = resolve(vec![first.clone(), second.clone()]);
    let backwards = resolve(vec![second, first]);
    assert_eq!(forwards.sessions, backwards.sessions);
}

#[test]
fn a_later_write_breaks_a_tie_in_revision() {
    let first = record(id(1), 1, 10, None, None);
    let rival = record(id(2), 1, 30, Some(id(1)), None);
    let resolution = resolve(vec![first, rival.clone()]);
    assert_eq!(resolution.sessions, vec![rival]);
    assert_eq!(resolution.forks, vec![id(1)]);
}

#[test]
fn voiding_takes_the_chain_out() {
    let first = record(id(1), 1, 10, None, None);
    let removal = record(id(2), 2, 20, None, Some(id(1)));
    let resolution = resolve(vec![first, removal]);
    assert!(resolution.sessions.is_empty());
}

#[test]
fn an_older_correction_cannot_revive_a_voided_chain() {
    let first = record(id(1), 1, 10, None, None);
    let removal = record(id(3), 3, 30, None, Some(id(1)));
    let stale = record(id(2), 2, 20, Some(id(1)), None);
    let resolution = resolve(vec![first, removal, stale]);
    assert!(resolution.sessions.is_empty(), "{:?}", resolution.sessions);
}

#[test]
fn an_undo_with_a_higher_revision_brings_it_back() {
    let first = record(id(1), 1, 10, None, None);
    let removal = record(id(2), 2, 20, None, Some(id(1)));
    let undo = record(id(3), 3, 30, Some(id(1)), None);
    let resolution = resolve(vec![first, removal, undo.clone()]);
    assert_eq!(resolution.sessions, vec![undo]);
}

#[test]
fn a_voided_chain_keeps_its_last_version_for_the_trash() {
    let first = record(id(1), 1, 10, None, None);
    let fixed = record(id(2), 2, 20, Some(id(1)), None);
    let removal = record(id(3), 3, 30, None, Some(id(2)));
    let resolution = resolve(vec![first, fixed.clone(), removal]);
    assert!(resolution.sessions.is_empty());
    assert_eq!(resolution.voided, vec![fixed]);
}

#[test]
fn a_revived_chain_is_not_in_the_trash() {
    let first = record(id(1), 1, 10, None, None);
    let removal = record(id(2), 2, 20, None, Some(id(1)));
    let undo = record(id(3), 3, 30, Some(id(1)), None);
    let resolution = resolve(vec![first, removal, undo]);
    assert!(resolution.voided.is_empty());
    assert_eq!(resolution.sessions.len(), 1);
}

#[test]
fn the_newest_revision_is_counted_over_the_whole_chain() {
    let first = record(id(1), 1, 10, None, None);
    let removal = record(id(2), 2, 20, None, Some(id(1)));
    let undo = record(id(3), 3, 30, Some(id(1)), None);
    let records = vec![first, removal, undo];
    assert_eq!(newest_revision(&records, id(1)), 3);
    assert_eq!(newest_revision(&records, id(2)), 3);
    assert_eq!(newest_revision(&records, id(3)), 3);
    assert_eq!(newest_revision(&records, id(404)), 0);
}

#[test]
fn every_record_of_a_chain_has_the_same_root() {
    let first = record(id(1), 1, 10, None, None);
    let fixed = record(id(2), 2, 20, Some(id(1)), None);
    let removal = record(id(3), 3, 30, None, Some(id(2)));
    let other = record(id(4), 1, 10, None, None);
    let stray = record(id(5), 2, 20, Some(id(404)), None);
    let roots = roots(&[first, fixed, removal, other, stray]);
    assert_eq!(roots.get(&id(1)), Some(&id(1)));
    assert_eq!(roots.get(&id(2)), Some(&id(1)));
    assert_eq!(roots.get(&id(3)), Some(&id(1)));
    assert_eq!(roots.get(&id(4)), Some(&id(4)));
    assert_eq!(roots.get(&id(5)), Some(&id(404)), "an orphan's root is the record that is not here");
}

#[test]
fn a_correction_of_nothing_is_kept_as_an_orphan() {
    let stray = record(id(9), 2, 20, Some(id(404)), None);
    let resolution = resolve(vec![stray.clone()]);
    assert!(resolution.sessions.is_empty());
    assert_eq!(resolution.orphans, vec![stray]);
    assert_eq!(resolution.diagnostics.len(), 1);
}

#[test]
fn the_orphan_warning_names_the_correction() {
    let stray = record(id(9), 2, 20, Some(id(404)), None);
    let resolution = resolve(vec![stray]);
    assert_eq!(
        resolution.diagnostics[0].message,
        format!("correction {} replaces a record that is not here", id(9).to_string())
    );
    assert!(resolution.diagnostics[0].location.is_none());
}

#[test]
fn a_fork_is_reported_once_with_its_revision() {
    let first = record(id(1), 2, 10, None, None);
    let rival = record(id(2), 2, 30, Some(id(1)), None);
    let resolution = resolve(vec![first, rival]);
    assert_eq!(resolution.diagnostics.len(), 1);
    assert_eq!(resolution.diagnostics[0].message, format!("two records claim to be version 2 of {}", id(1).to_string()));
}

#[test]
fn chains_come_out_by_their_first_identifier() {
    let late = record(id(5), 1, 10, None, None);
    let early = record(id(2), 1, 10, None, None);
    let resolution = resolve(vec![late.clone(), early.clone()]);
    assert_eq!(resolution.sessions, vec![early, late]);
}

#[test]
fn a_chain_that_points_at_itself_still_resolves() {
    let a = record(id(1), 1, 10, Some(id(2)), None);
    let b = record(id(2), 2, 20, Some(id(1)), None);
    let resolution = resolve(vec![a.clone(), b.clone()]);
    assert_eq!(resolution.sessions, vec![a, b], "the walk stops after as many steps as there are links");
    assert!(resolution.orphans.is_empty());
}
