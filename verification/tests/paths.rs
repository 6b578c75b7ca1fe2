use std::path::PathBuf;

use qfocus::store::paths::{Paths, broken_stamp, clean_machine_name};

#[test]
fn files_sit_under_the_root() {
    let paths = Paths::at("/data/focus", "laptop");
    assert_eq!(PathBuf::from(paths.root()), PathBuf::from("/data/focus"));
    assert_eq!(PathBuf::from(paths.tree_file()), PathBuf::from("/data/focus/tree.toml"));
    assert_eq!(PathBuf::from(paths.sessions_dir()), PathBuf::from("/data/focus/sessions"));
    assert_eq!(PathBuf::from(paths.month_file(2026, 9)), PathBuf::from("/data/focus/sessions/2026-09.log"));
    assert_eq!(PathBuf::from(paths.trash_dir()), PathBuf::from("/data/focus/trash"));
    assert_eq!(PathBuf::from(paths.trash_file(2026, 9)), PathBuf::from("/data/focus/trash/2026-09.log"));
    assert_eq!(PathBuf::from(paths.export_dir()), PathBuf::from("/data/focus/export"));
    assert_eq!(PathBuf::from(paths.running_file()), PathBuf::from("/data/focus/running-laptop.toml"));
    assert_eq!(PathBuf::from(paths.lock_file()), PathBuf::from("/data/focus/qfocus-laptop.lock"));
}

#[test]
fn a_broken_running_file_is_set_aside_under_a_stamped_name_beside_it() {
    let paths = Paths::at("/data/focus", "laptop");
    // Noon UTC on 2026-09-18, three hours ahead: 15:00:00 local.
    let stamp = broken_stamp(1_789_732_800, 180);
    assert_eq!(stamp, "2026-09-18-150000");
    assert_eq!(
        PathBuf::from(paths.broken_running_file(&stamp, 1)),
        PathBuf::from("/data/focus/running-laptop-broken-2026-09-18-150000.toml")
    );
    assert_eq!(
        PathBuf::from(paths.broken_running_file(&stamp, 2)),
        PathBuf::from("/data/focus/running-laptop-broken-2026-09-18-150000-2.toml")
    );
    assert_eq!(
        PathBuf::from(paths.broken_running_file(&stamp, 13)),
        PathBuf::from("/data/focus/running-laptop-broken-2026-09-18-150000-13.toml")
    );
    assert_eq!(broken_stamp(1_789_732_800 + 9 * 3_600 + 61, 0), "2026-09-18-210101");
}

#[test]
fn the_machine_name_is_cleaned_for_a_file_name() {
    assert_eq!(clean_machine_name("my laptop.local"), "my-laptop-local");
    assert_eq!(clean_machine_name("  "), "machine");
    assert_eq!(clean_machine_name("ok_name-1"), "ok_name-1");
    assert_eq!(clean_machine_name("çay/ev"), "-ay-ev");
    let paths = Paths::at("/data", "a b");
    assert_eq!(PathBuf::from(paths.running_file()), PathBuf::from("/data/running-a-b.toml"));
}

#[test]
fn a_root_that_ends_in_a_slash_gets_no_second_one() {
    let paths = Paths::at("/data/", "box");
    assert_eq!(paths.tree_file(), "/data/tree.toml");
    assert_eq!(paths.seen_file(), "/data/seen-box.toml");
}

#[test]
fn white_space_around_the_machine_name_is_dropped() {
    assert_eq!(clean_machine_name("\t desk \n"), "desk");
}
