use sanitize_filenames::{decide_rename, rename_path, RenameAction};

#[test]
fn decision_table() {
    for old_exists in [false, true] {
        for new_exists in [false, true] {
            for dry_run in [false, true] {
                assert_eq!(
                    decide_rename(true, old_exists, new_exists, dry_run),
                    RenameAction::Unchanged
                );
            }
        }
    }
    for new_exists in [false, true] {
        for dry_run in [false, true] {
            assert_eq!(decide_rename(false, false, new_exists, dry_run), RenameAction::Missing);
            assert_eq!(decide_rename(false, true, true, dry_run), RenameAction::Collision);
        }
    }
    assert_eq!(decide_rename(false, true, false, true), RenameAction::WouldChange);
    assert_eq!(decide_rename(false, true, false, false), RenameAction::Change);
}

#[test]
fn rename_path_noop_when_old_equals_new() {
    let outcome = rename_path("dir/same.txt", "dir/same.txt", true, true, true, false);
    assert_eq!(outcome.action, RenameAction::Unchanged);
    assert_eq!(outcome.path, "dir/same.txt");
    assert_eq!(
        outcome.report,
        "Old name and new name are the same for 'dir/same.txt'.  Not changing"
    );
}

#[test]
fn the_caller_says_whether_the_paths_are_the_same() {
    let outcome = rename_path("dir//same/", "dir/same", true, true, true, false);
    assert_eq!(outcome.action, RenameAction::Unchanged);
    assert_eq!(outcome.path, "dir/same");
    let outcome = rename_path("name", "name", false, true, false, false);
    assert_eq!(outcome.action, RenameAction::Change);
    assert_eq!(outcome.report, "Changing 'name' to 'name'");
}

#[test]
fn rename_path_skips_when_old_missing() {
    let outcome = rename_path("missing.txt", "new.txt", false, false, false, false);
    assert_eq!(outcome.action, RenameAction::Missing);
    assert_eq!(outcome.path, "missing.txt");
    assert_eq!(outcome.report, "Old file name 'missing.txt' does not exist.  Skipping");
}

#[test]
fn rename_path_skips_when_new_exists() {
    for dry_run in [false, true] {
        let outcome = rename_path("old.txt", "new.txt", false, true, true, dry_run);
        assert_eq!(outcome.action, RenameAction::Collision);
        assert_eq!(outcome.path, "old.txt");
        assert_eq!(outcome.report, "New file name 'new.txt' already exists!  Skipping");
    }
}

#[test]
fn rename_path_renames_when_possible() {
    let outcome = rename_path("old name.txt", "new_name.txt", false, true, false, false);
    assert_eq!(outcome.action, RenameAction::Change);
    assert_eq!(outcome.path, "new_name.txt");
    assert_eq!(outcome.report, "Changing 'old name.txt' to 'new_name.txt'");
}

#[test]
fn a_dry_run_only_reports() {
    let outcome = rename_path("old name.txt", "new_name.txt", false, true, false, true);
    assert_eq!(outcome.action, RenameAction::WouldChange);
    assert_eq!(outcome.path, "new_name.txt");
    assert_eq!(outcome.report, "Would change 'old name.txt' to 'new_name.txt'");
}
