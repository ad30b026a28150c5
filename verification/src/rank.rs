//! The two hashing tiers. Runs of one bucket are ranked by sample hash, the
//! longest first among equals; runs that share a sample hash with two or
//! more others are then told apart by content hash.

use vstd::prelude::*;
use crate::compare::ContentHash;
use crate::group::Run;
use crate::merge::{merge_plan, merge_runs, plans, run_in, Merge, MergePlan};
use crate::order::{arrange, arranged, ascending, distinct_tags, Key};

verus! {

/// What each run is ranked by: its sample hash, then the complement of its
/// length, so that longer runs come first. A run without a sample hash is
/// not ranked.
pub open spec fn sample_wants(runs: Seq<Run>, samples: Seq<Option<u128>>) -> Seq<
    Option<(u128, u128)>,
> {
    Seq::new(
        runs.len(),
        |p: int|
            match samples[p] {
                Some(hash) => Some((hash, (usize::MAX - runs[p].len) as u128)),
                None => None,
            },
    )
}

/// The ranking of `runs` by their sample hashes: for each run that has one,
/// a key of the hash, the complement of the run's length and the run's
/// position in `runs`, in ascending order.
pub open spec fn ranked(runs: Seq<Run>, samples: Seq<Option<u128>>) -> Seq<Key> {
    arranged(sample_wants(runs, samples))
}

/// Ranks `runs` by sample hash. Runs whose hash is missing are left out, so
/// that they are matched with nothing, not even with each other. Among runs
/// with the same hash the longest comes first, and of equally long ones the
/// one that stands first in `runs`.
pub fn rank_runs(runs: &Vec<Run>, samples: &Vec<Option<u128>>) -> (order: Vec<Key>)
    requires
        samples@.len() == runs@.len(),
    ensures
        order@ == ranked(runs@, samples@),
        order@.len() <= runs@.len(),
        ascending(order@),
        distinct_tags(order@),
        forall|j: int| 0 <= j < order@.len() ==> (#[trigger] order@[j]).2 < runs@.len(),
        forall|j: int|
            0 <= j < order@.len() ==> (#[trigger] order@[j]).1 == usize::MAX
                - runs@[order@[j].2 as int].len,
{
    let mut wanted: Vec<Option<(u128, u128)>> = Vec::new();
    let mut p: usize = 0;
    while p < runs.len()
        invariant
            samples@.len() == runs@.len(),
            p <= runs@.len(),
            wanted@.len() == p,
            forall|q: int| 0 <= q < p ==> wanted@[q] == sample_wants(runs@, samples@)[q],
        decreases runs@.len() - p,
    {
        let entry = match samples[p] {
            Some(hash) => Some((hash, (usize::MAX - runs[p].len) as u128)),
            None => None,
        };
        wanted.push(entry);
        p += 1;
    }
    assert(wanted@ =~= sample_wants(runs@, samples@));
    let order = arrange(&wanted);
    proof {
        assert forall|j: int| 0 <= j < order@.len() implies (#[trigger] order@[j]).1 == usize::MAX
            - runs@[order@[j].2 as int].len by {
            assert(order@.contains(order@[j]));
        }
    }
    order
}

/// What each run of a group is told apart by: the two halves of its content
/// hash. A run without a content hash takes no further part.
pub open spec fn digest_wants(digests: Seq<Option<ContentHash>>) -> Seq<Option<(u128, u128)>> {
    Seq::new(
        digests.len(),
        |q: int|
            match digests[q] {
                Some(hash) => Some((hash.high, hash.low)),
                None => None,
            },
    )
}

/// Two keys of a digest order carry the same content hash.
pub open spec fn same_digest(a: Key, b: Key) -> bool {
    a.0 == b.0 && a.1 == b.1
}

/// The first position of the stretch of equal content hashes in which
/// position `j` lies.
pub open spec fn leader(order: Seq<Key>, j: int) -> int
    decreases j,
{
    if 0 < j < order.len() && same_digest(order[j], order[j - 1]) {
        leader(order, j - 1)
    } else {
        j
    }
}

/// The merges among the first `upto` positions of a digest order: each
/// position that is not the first of its stretch is merged into the first.
pub open spec fn digest_merges(keys: Seq<Key>, group: Seq<Run>, order: Seq<Key>, upto: int) -> Seq<
    MergePlan,
>
    decreases upto,
{
    if upto <= 0 {
        Seq::empty()
    } else {
        let j = upto - 1;
        let before = digest_merges(keys, group, order, j);
        if leader(order, j) != j {
            before.push(
                merge_plan(keys, group[order[leader(order, j)].2 as int], group[order[j].2 as int]),
            )
        } else {
            before
        }
    }
}

/// The merges that the content hashes of a group call for. The runs of the
/// group that have a content hash are ordered by it, runs with equal hashes
/// staying in the order of the group; within each stretch of equal hashes
/// every run but the first is merged into the first.
pub open spec fn content_merges(keys: Seq<Key>, group: Seq<Run>, digests: Seq<Option<ContentHash>>) -> Seq<
    MergePlan,
> {
    let order = arranged(digest_wants(digests));
    digest_merges(keys, group, order, order.len() as int)
}

/// The leader of a position stands at or before it and carries the same
/// content hash, which the position before the leader does not.
pub proof fn lemma_leader(order: Seq<Key>, j: int)
    requires
        0 <= j < order.len(),
    ensures
        0 <= leader(order, j) <= j,
        same_digest(order[leader(order, j)], order[j]),
        leader(order, j) > 0 ==> !same_digest(
            order[leader(order, j)],
            order[leader(order, j) - 1],
        ),
    decreases j,
{
    if 0 < j && same_digest(order[j], order[j - 1]) {
        lemma_leader(order, j - 1);
    }
}

/// Decides the merges within a group of runs from their content hashes.
/// `digests` holds one entry for each run of `group`, `None` where no hash
/// could be computed. Runs with equal hashes are merged into the one of
/// them that stands first in `group`; a run whose hash no other run shares,
/// or that has none, is left alone.
pub fn merge_by_digest(keys: &Vec<Key>, group: &Vec<Run>, digests: &Vec<Option<ContentHash>>) -> (merges:
    Vec<Merge>)
    requires
        digests@.len() == group@.len(),
        forall|r: int| 0 <= r < group@.len() ==> run_in(keys@, #[trigger] group@[r]),
        forall|r: int|
            0 <= r < group@.len() ==> keys@[(#[trigger] group@[r]).first as int].0 <= u64::MAX,
    ensures
        plans(merges@) == content_merges(keys@, group@, digests@),
        merges@.len() <= group@.len(),
{
    let mut wanted: Vec<Option<(u128, u128)>> = Vec::new();
    let mut q: usize = 0;
    while q < digests.len()
        invariant
            q <= digests@.len(),
            wanted@.len() == q,
            forall|i: int| 0 <= i < q ==> wanted@[i] == digest_wants(digests@)[i],
        decreases digests@.len() - q,
    {
        let entry = match digests[q] {
            Some(hash) => Some((hash.high, hash.low)),
            None => None,
        };
        wanted.push(entry);
        q += 1;
    }
    assert(wanted@ =~= digest_wants(digests@));
    let order = arrange(&wanted);
    let mut merges: Vec<Merge> = Vec::new();
    let mut lead: usize = 0;
    let mut j: usize = 0;
    while j < order.len()
        invariant
            j <= order@.len(),
            order@.len() <= group@.len(),
            merges@.len() <= j,
            forall|i: int| 0 <= i < order@.len() ==> (#[trigger] order@[i]).2 < group@.len(),
            forall|r: int| 0 <= r < group@.len() ==> run_in(keys@, #[trigger] group@[r]),
            forall|r: int|
                0 <= r < group@.len() ==> keys@[(#[trigger] group@[r]).first as int].0 <= u64::MAX,
            j > 0 ==> lead == leader(order@, j - 1),
            plans(merges@) == digest_merges(keys@, group@, order@, j as int),
        decreases order@.len() - j,
    {
        proof {
            if j > 0 {
                lemma_leader(order@, j - 1);
            }
        }
        if j > 0 && order[j].0 == order[j - 1].0 && order[j].1 == order[j - 1].1 {
            let keep = group[order[lead].2];
            let absorb = group[order[j].2];
            let merge = merge_runs(keys, keep, absorb);
            let ghost before = merges@;
            merges.push(merge);
            proof {
                assert(leader(order@, j as int) == lead);
                assert(plans(merges@) =~= plans(before).push(merge@));
            }
        } else {
            lead = j;
        }
        j += 1;
    }
    merges
}

} // verus!
