//! The link materializer's decisions. Replacing a duplicate by a hard link
//! takes up to three file-system operations; which one comes next follows
//! from how the last one went. The caller performs them.

use vstd::prelude::*;

verus! {

/// How the replacement of one file by a link ended.
#[derive(Clone, Copy, Debug, PartialEq, Eq, Structural)]
pub enum LinkOutcome {
    /// The target is now a hard link to the source.
    Linked,
    /// The temporary link could not be made; nothing was changed.
    LinkFailed,
    /// The temporary link could not be moved over the target; the target is
    /// as it was.
    RenameFailed,
}

/// Where the replacement of one file by a link stands.
#[derive(Clone, Copy, Debug, PartialEq, Eq, Structural)]
pub enum LinkStage {
    /// Nothing done yet.
    Start,
    /// The temporary link is being made beside the target.
    Linking,
    /// The temporary link is being moved over the target.
    Renaming,
    /// The temporary link is being removed after a failed move.
    Removing,
    /// Over.
    Finished(LinkOutcome),
}

/// The file-system operation to perform next.
#[derive(Clone, Copy, Debug, PartialEq, Eq, Structural)]
pub enum LinkAction {
    /// Make a hard link to the source under the temporary name.
    CreateLink,
    /// Rename the temporary link to the target's name, replacing the target.
    Rename,
    /// Remove the temporary link; whether that succeeds does not matter.
    Remove,
    /// Nothing more.
    Stop(LinkOutcome),
}

/// The stage that follows `stage` when the operation it was waiting on
/// succeeded or failed, and the operation to perform then.
pub open spec fn link_step(stage: LinkStage, succeeded: bool) -> (LinkStage, LinkAction) {
    match stage {
        LinkStage::Start => (LinkStage::Linking, LinkAction::CreateLink),
        LinkStage::Linking => if succeeded {
            (LinkStage::Renaming, LinkAction::Rename)
        } else {
            (
                LinkStage::Finished(LinkOutcome::LinkFailed),
                LinkAction::Stop(LinkOutcome::LinkFailed),
            )
        },
        LinkStage::Renaming => if succeeded {
            (LinkStage::Finished(LinkOutcome::Linked), LinkAction::Stop(LinkOutcome::Linked))
        } else {
            (LinkStage::Removing, LinkAction::Remove)
        },
        LinkStage::Removing => (
            LinkStage::Finished(LinkOutcome::RenameFailed),
            LinkAction::Stop(LinkOutcome::RenameFailed),
        ),
        LinkStage::Finished(outcome) => (LinkStage::Finished(outcome), LinkAction::Stop(outcome)),
    }
}

/// Decides the next operation of a replacement. The target is touched only
/// by the rename, and that only after the temporary link exists; a failed
/// rename is followed by the removal of the temporary link.
pub fn next_link_step(stage: LinkStage, succeeded: bool) -> (next: (LinkStage, LinkAction))
    ensures
        next == link_step(stage, succeeded),
{
    match stage {
        LinkStage::Start => (LinkStage::Linking, LinkAction::CreateLink),
        LinkStage::Linking => {
            if succeeded {
                (LinkStage::Renaming, LinkAction::Rename)
            } else {
                (
                    LinkStage::Finished(LinkOutcome::LinkFailed),
                    LinkAction::Stop(LinkOutcome::LinkFailed),
                )
            }
        },
        LinkStage::Renaming => {
            if succeeded {
                (LinkStage::Finished(LinkOutcome::Linked), LinkAction::Stop(LinkOutcome::Linked))
            } else {
                (LinkStage::Removing, LinkAction::Remove)
            }
        },
        LinkStage::Removing => (
            LinkStage::Finished(LinkOutcome::RenameFailed),
            LinkAction::Stop(LinkOutcome::RenameFailed),
        ),
        LinkStage::Finished(outcome) => (LinkStage::Finished(outcome), LinkAction::Stop(outcome)),
    }
}

/// The stage reached from `stage` through the given results, one for each
/// operation performed.
pub open spec fn after(stage: LinkStage, results: Seq<bool>) -> LinkStage
    decreases results.len(),
{
    if results.len() == 0 {
        stage
    } else {
        after(link_step(stage, results[0]).0, results.drop_first())
    }
}

/// A replacement is over after at most four steps, however the operations
/// go, and it ends as linked exactly if both the link and the rename
/// succeeded.
pub proof fn law_link_ends(done: bool, linked: bool, renamed: bool, removed: bool)
    ensures
        after(LinkStage::Start, seq![done, linked, renamed, removed]) is Finished,
        after(LinkStage::Start, seq![done, linked, renamed, removed]) == LinkStage::Finished(
            LinkOutcome::Linked,
        ) <==> linked && renamed,
        !linked ==> after(LinkStage::Start, seq![done, linked]) == LinkStage::Finished(
            LinkOutcome::LinkFailed,
        ),
{
    reveal_with_fuel(after, 5);
    let all = seq![done, linked, renamed, removed];
    assert(all.drop_first() =~= seq![linked, renamed, removed]);
    assert(all.drop_first().drop_first() =~= seq![renamed, removed]);
    assert(all.drop_first().drop_first().drop_first() =~= seq![removed]);
    assert(all.drop_first().drop_first().drop_first().drop_first() =~= Seq::<bool>::empty());
    let two = seq![done, linked];
    assert(two.drop_first() =~= seq![linked]);
    assert(two.drop_first().drop_first() =~= Seq::<bool>::empty());
}

} // verus!
