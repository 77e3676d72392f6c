use vstd::prelude::*;
use crate::entry::EntryKind;

verus! {

/// What the copy stage does with an entry that is absent from the target.
#[derive(Clone, Copy, Debug, PartialEq, Eq, Structural)]
pub enum CopyAction {
    /// Create the directory; when `then_compare` is set, queue a compare pass
    /// of the new pair once it exists. That pass was counted by the compare
    /// pass that found the directory missing, so nothing is counted here.
    CreateDir { then_compare: bool },
    /// Copy the file's whole contents.
    CopyFile,
}

pub open spec fn copy_action_of(kind: EntryKind, recursive: bool) -> CopyAction {
    match kind {
        EntryKind::Dir => CopyAction::CreateDir { then_compare: recursive },
        EntryKind::File => CopyAction::CopyFile,
    }
}

/// The copy stage's decision for an entry of the given kind.
pub fn copy_action(kind: EntryKind, recursive: bool) -> (r: CopyAction)
    ensures
        r == copy_action_of(kind, recursive),
{
    match kind {
        EntryKind::Dir => CopyAction::CreateDir { then_compare: recursive },
        EntryKind::File => CopyAction::CopyFile,
    }
}

/// What follows a copy stage action once it has been tried.
#[derive(Clone, Copy, Debug, PartialEq, Eq, Structural)]
pub enum FollowUp {
    /// Queue the compare pass of the new directory pair.
    QueueCompare,
    /// The directory whose pass was counted could not be created, so that
    /// pass will never run: count it as finished.
    Release,
    /// Nothing more.
    Done,
}

pub open spec fn follow_up_of(action: CopyAction, succeeded: bool) -> FollowUp {
    match action {
        CopyAction::CreateDir { then_compare: true } => if succeeded {
            FollowUp::QueueCompare
        } else {
            FollowUp::Release
        },
        _ => FollowUp::Done,
    }
}

/// What the copy stage does after trying `action`. A pass is counted for a
/// missing directory exactly when the copy is told to compare it afterwards,
/// so each counted pass is either queued or released, once.
pub fn follow_up(action: CopyAction, succeeded: bool) -> (r: FollowUp)
    ensures
        r == follow_up_of(action, succeeded),
{
    match action {
        CopyAction::CreateDir { then_compare: true } => if succeeded {
            FollowUp::QueueCompare
        } else {
            FollowUp::Release
        },
        _ => FollowUp::Done,
    }
}

/// The count a compare pass makes for a missing entry and the pass the copy
/// stage queues for it agree: a pass is counted exactly when the copy will
/// queue or release one.
pub proof fn lemma_counted_copy_is_settled(kind: EntryKind, recursive: bool, succeeded: bool)
    ensures
        (recursive && kind == EntryKind::Dir) == (follow_up_of(copy_action_of(kind, recursive), succeeded) != FollowUp::Done),
{
}

} // verus!
