//! The renamer: decides what becomes of one rename, and words the report.
//!
//! Whether the two paths are the same, and whether they exist, are facts
//! about the file system: a file is known by its name as the file system holds
//! it, which need not be text. The caller looks the facts up and passes them
//! in, and carries out the rename where the decision asks for one.

use vstd::prelude::*;

verus! {

/// What becomes of one rename.
#[derive(Debug, Clone, Copy, PartialEq, Eq, Structural)]
pub enum RenameAction {
    /// The old and the new path are the same: nothing to do.
    Unchanged,
    /// The old path does not exist: skipped.
    Missing,
    /// The new path exists already: skipped, nothing is overwritten.
    Collision,
    /// A dry run: the rename is reported and not carried out.
    WouldChange,
    /// The rename is to be carried out.
    Change,
}

/// The decision on one rename, with the path that stands afterwards and the
/// line that reports the decision.
#[derive(Debug, Clone)]
pub struct RenameOutcome {
    /// What is to be done.
    pub action: RenameAction,
    /// The path afterwards: the new path where the rename is or would be
    /// carried out or changes nothing, the old path where it is skipped.
    pub path: String,
    /// The line that reports the decision.
    pub report: String,
}

/// The decision table of a rename, read from the top: the same path changes
/// nothing; a missing old path is skipped; an existing new path is a
/// collision and is skipped; else the rename goes ahead, in a dry run in
/// words only.
pub open spec fn decided(same: bool, old_exists: bool, new_exists: bool, dry_run: bool)
    -> RenameAction {
    if same {
        RenameAction::Unchanged
    } else if !old_exists {
        RenameAction::Missing
    } else if new_exists {
        RenameAction::Collision
    } else if dry_run {
        RenameAction::WouldChange
    } else {
        RenameAction::Change
    }
}

/// The path that stands after the decision.
pub open spec fn path_after(action: RenameAction, old: Seq<char>, new: Seq<char>) -> Seq<char> {
    match action {
        RenameAction::Missing | RenameAction::Collision => old,
        _ => new,
    }
}

/// The line that reports the decision.
pub open spec fn report_line(action: RenameAction, old: Seq<char>, new: Seq<char>) -> Seq<char> {
    match action {
        RenameAction::Unchanged => "Old name and new name are the same for '"@ + old
            + "'.  Not changing"@,
        RenameAction::Missing => "Old file name '"@ + old + "' does not exist.  Skipping"@,
        RenameAction::Collision => "New file name '"@ + new + "' already exists!  Skipping"@,
        RenameAction::WouldChange => "Would change '"@ + old + "' to '"@ + new + "'"@,
        RenameAction::Change => "Changing '"@ + old + "' to '"@ + new + "'"@,
    }
}

/// Decides a rename from the facts. Only `Change` touches the file system,
/// and it is decided only where the paths differ, the old one exists, the new
/// one does not, and the run is no dry run.
pub fn decide_rename(same: bool, old_exists: bool, new_exists: bool, dry_run: bool) -> (action:
    RenameAction)
    ensures
        action == decided(same, old_exists, new_exists, dry_run),
        action == RenameAction::Change <==> !same && old_exists && !new_exists && !dry_run,
        !same && old_exists && new_exists ==> action == RenameAction::Collision,
{
    if same {
        RenameAction::Unchanged
    } else if !old_exists {
        RenameAction::Missing
    } else if new_exists {
        RenameAction::Collision
    } else if dry_run {
        RenameAction::WouldChange
    } else {
        RenameAction::Change
    }
}

/// Words the report of a decision.
pub fn report(action: RenameAction, old: &str, new: &str) -> (line: String)
    ensures
        line@ == report_line(action, old@, new@),
{
    match action {
        RenameAction::Unchanged => {
            let mut line = "Old name and new name are the same for '".to_owned();
            line.append(old);
            line.append("'.  Not changing");
            line
        },
        RenameAction::Missing => {
            let mut line = "Old file name '".to_owned();
            line.append(old);
            line.append("' does not exist.  Skipping");
            line
        },
        RenameAction::Collision => {
            let mut line = "New file name '".to_owned();
            line.append(new);
            line.append("' already exists!  Skipping");
            line
        },
        RenameAction::WouldChange => {
            let mut line = "Would change '".to_owned();
            line.append(old);
            line.append("' to '");
            line.append(new);
            line.append("'");
            line
        },
        RenameAction::Change => {
            let mut line = "Changing '".to_owned();
            line.append(old);
            line.append("' to '");
            line.append(new);
            line.append("'");
            line
        },
    }
}

/// Decides the rename of `old` to `new`. `same` says whether the two are the
/// same path; `old_exists` and `new_exists`, whether they exist now. Where the
/// new path exists and is not the old one, the old one is left alone and the
/// collision reported.
pub fn rename_path(
    old: &str,
    new: &str,
    same: bool,
    old_exists: bool,
    new_exists: bool,
    dry_run: bool,
) -> (outcome: RenameOutcome)
    ensures
        outcome.action == decided(same, old_exists, new_exists, dry_run),
        outcome.path@ == path_after(outcome.action, old@, new@),
        outcome.report@ == report_line(outcome.action, old@, new@),
        outcome.action == RenameAction::Change <==> !same && old_exists && !new_exists
            && !dry_run,
        !same && old_exists && new_exists ==> outcome.action == RenameAction::Collision
            && outcome.path@ == old@,
{
    let action = decide_rename(same, old_exists, new_exists, dry_run);
    let path = match action {
        RenameAction::Missing | RenameAction::Collision => old.to_owned(),
        _ => new.to_owned(),
    };
    RenameOutcome { action, path, report: report(action, old, new) }
}

} // verus!
