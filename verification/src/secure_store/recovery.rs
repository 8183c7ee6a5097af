//! Choosing the copy of a ciphertext file to read after an interrupted write.
//!
//! A write goes: temporary file, old main file renamed to the backup, temporary
//! file renamed to main, backup removed. A crash between any two steps leaves
//! one of a few states; loading decides from what the main file and the backup
//! turned out to be (missing, opening, or failing to open) and never deletes
//! the only readable copy.

use vstd::prelude::*;

use crate::text::{concat2, concat3};

verus! {

/// What one candidate file turned out to be.
#[derive(Debug, PartialEq, Eq)]
pub enum Probe {
    /// The file does not exist.
    Missing,
    /// The file exists and authenticates and parses.
    Opened,
    /// The file exists but cannot be used, with the reason.
    Unreadable(String),
}

/// What loading does next.
#[derive(Debug, PartialEq, Eq)]
pub enum LoadAction {
    /// Neither file exists: nothing has been stored yet.
    Empty,
    /// The main file opens: use it and remove a stale backup if one is left.
    UseMain,
    /// Only the backup exists and it opens: rename it over the main path and use it.
    PromoteBackup,
    /// The main file does not open but the backup does: archive the main file
    /// under a new name, then promote the backup.
    ArchiveMainPromoteBackup,
    /// Neither copy can be used: report this and leave both files as they are.
    Fail(String),
}

/// The backup only matters when the main file is missing or does not open.
pub open spec fn backup_needed_spec(main: Probe) -> bool {
    !(main is Opened)
}

/// The report when the main file is missing and the backup does not open.
pub open spec fn orphan_backup_message(backup_path: Seq<char>, reason: Seq<char>) -> Seq<char> {
    "备份无法读取且主文件不存在（备份保留在 "@ + backup_path + "）: "@ + reason
}

/// The report when neither copy opens.
pub open spec fn both_unreadable_message(main_reason: Seq<char>, backup_reason: Seq<char>) -> Seq<char> {
    main_reason + "；备份同样无法读取（两个文件均保留原样）: "@ + backup_reason
}

/// Whether the backup has to be read before deciding.
pub fn backup_needed(main: &Probe) -> (r: bool)
    ensures
        r == backup_needed_spec(*main),
{
    match main {
        Probe::Opened => false,
        _ => true,
    }
}

/// Decides how to load from what the main file and its backup turned out to
/// be. When the main file opens the backup is not consulted; `backup_path` is
/// only named in the report of a backup left without its main file.
pub fn load_action(main: &Probe, backup: &Probe, backup_path: &str) -> (r: LoadAction)
    ensures
        match (*main, *backup) {
            (Probe::Opened, _) => r is UseMain,
            (Probe::Missing, Probe::Missing) => r is Empty,
            (Probe::Missing, Probe::Opened) => r is PromoteBackup,
            (Probe::Missing, Probe::Unreadable(reason)) => r matches LoadAction::Fail(m) && m@
                == orphan_backup_message(backup_path@, reason@),
            (Probe::Unreadable(main_reason), Probe::Missing) => r matches LoadAction::Fail(m)
                && m@ == main_reason@,
            (Probe::Unreadable(_), Probe::Opened) => r is ArchiveMainPromoteBackup,
            (Probe::Unreadable(main_reason), Probe::Unreadable(backup_reason)) => r matches LoadAction::Fail(m)
                && m@ == both_unreadable_message(main_reason@, backup_reason@),
        },
        (*main is Opened || *backup is Opened) ==> !(r is Fail) && !(r is Empty),
{
    match main {
        Probe::Opened => LoadAction::UseMain,
        Probe::Missing => match backup {
            Probe::Missing => LoadAction::Empty,
            Probe::Opened => LoadAction::PromoteBackup,
            Probe::Unreadable(reason) => {
                let head = concat3("备份无法读取且主文件不存在（备份保留在 ", backup_path, "）: ");
                let m = concat2(head.as_str(), reason.as_str());
                proof {
                    reveal_strlit("备份无法读取且主文件不存在（备份保留在 ");
                    reveal_strlit("）: ");
                }
                LoadAction::Fail(m)
            },
        },
        Probe::Unreadable(main_reason) => match backup {
            Probe::Missing => LoadAction::Fail(main_reason.clone()),
            Probe::Opened => LoadAction::ArchiveMainPromoteBackup,
            Probe::Unreadable(backup_reason) => {
                let m = concat3(
                    main_reason.as_str(),
                    "；备份同样无法读取（两个文件均保留原样）: ",
                    backup_reason.as_str(),
                );
                proof {
                    reveal_strlit("；备份同样无法读取（两个文件均保留原样）: ");
                }
                LoadAction::Fail(m)
            },
        },
    }
}

} // verus!
