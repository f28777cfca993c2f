//! The steps of `reset --hard`: restore the staging area, restore the working
//! tree where there is a head commit to restore it from, then remove
//! untracked files.

use vstd::prelude::*;

verus! {

/// A step of a hard reset.
#[derive(Clone, Copy, Debug, PartialEq, Eq, Structural)]
pub enum ResetAction {
    /// Restore every path of the repository in the staging area.
    RestoreStaged,
    /// Restore every path of the repository in the working tree.
    RestoreWorkingTree,
    /// Remove untracked files and directories.
    Clean,
}

/// The step that follows `done` (none at the start), or `None` when the
/// reset is over.
pub open spec fn reset_hard_next_spec(done: Option<ResetAction>, head_exists: bool) -> Option<
    ResetAction,
> {
    match done {
        None => Some(ResetAction::RestoreStaged),
        Some(ResetAction::RestoreStaged) => if head_exists {
            Some(ResetAction::RestoreWorkingTree)
        } else {
            Some(ResetAction::Clean)
        },
        Some(ResetAction::RestoreWorkingTree) => Some(ResetAction::Clean),
        Some(ResetAction::Clean) => None,
    }
}

/// The step that follows `done` (none at the start), or `None` when the
/// reset is over. `head_exists` tells whether the repository has a head
/// commit; it is read only after the staging area was restored.
pub fn reset_hard_next(done: Option<ResetAction>, head_exists: bool) -> (next: Option<ResetAction>)
    ensures
        next == reset_hard_next_spec(done, head_exists),
{
    match done {
        None => Some(ResetAction::RestoreStaged),
        Some(ResetAction::RestoreStaged) => if head_exists {
            Some(ResetAction::RestoreWorkingTree)
        } else {
            Some(ResetAction::Clean)
        },
        Some(ResetAction::RestoreWorkingTree) => Some(ResetAction::Clean),
        Some(ResetAction::Clean) => None,
    }
}

/// The steps of a hard reset in order.
pub open spec fn reset_hard_steps(head_exists: bool) -> Seq<ResetAction> {
    if head_exists {
        seq![ResetAction::RestoreStaged, ResetAction::RestoreWorkingTree, ResetAction::Clean]
    } else {
        seq![ResetAction::RestoreStaged, ResetAction::Clean]
    }
}

/// Stepping with `reset_hard_next` from the start hands out exactly the
/// steps of `reset_hard_steps` and then stops: the staging area first,
/// untracked files last, and the working tree in between exactly when there
/// is a head commit.
pub proof fn lemma_reset_hard_order(head_exists: bool)
    ensures
        ({
            let steps = reset_hard_steps(head_exists);
            &&& reset_hard_next_spec(None, head_exists) == Some(steps[0])
            &&& forall|i: int|
                0 <= i < steps.len() - 1 ==> reset_hard_next_spec(Some(#[trigger] steps[i]), head_exists)
                    == Some(steps[i + 1])
            &&& reset_hard_next_spec(Some(steps.last()), head_exists) is None
            &&& steps[0] == ResetAction::RestoreStaged
            &&& steps.last() == ResetAction::Clean
            &&& steps.contains(ResetAction::RestoreWorkingTree) == head_exists
        }),
{
    let steps = reset_hard_steps(head_exists);
    if head_exists {
        assert(steps[1] == ResetAction::RestoreWorkingTree);
    } else {
        assert(steps[0] != ResetAction::RestoreWorkingTree);
        assert(steps[1] != ResetAction::RestoreWorkingTree);
    }
}

} // verus!
