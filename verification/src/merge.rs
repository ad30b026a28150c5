//! Merges: the decision that one run is absorbed into another, so that each
//! of its files becomes a hard link to the other run's first file.

use vstd::prelude::*;
use crate::group::Run;
use crate::order::Key;
use crate::stats::{Statistics, Tally};

verus! {

/// A merge as plain values.
pub struct MergePlan {
    /// The file that stays: the first file of the run that is kept.
    pub survivor: usize,
    /// The files of the absorbed run, each to become a link to the survivor.
    pub duplicates: Seq<usize>,
    /// The size that all these files have.
    pub size: u64,
}

/// One merge that the resolver decided on.
#[derive(Debug)]
pub struct Merge {
    /// The file that stays: the first file of the run that is kept.
    pub survivor: usize,
    /// The files of the absorbed run, each to become a link to the survivor.
    pub duplicates: Vec<usize>,
    /// The size that all these files have.
    pub size: u64,
}

impl View for Merge {
    type V = MergePlan;

    open spec fn view(&self) -> MergePlan {
        MergePlan { survivor: self.survivor, duplicates: self.duplicates@, size: self.size }
    }
}

/// The plans of a list of merges.
pub open spec fn plans(merges: Seq<Merge>) -> Seq<MergePlan> {
    Seq::new(merges.len(), |i: int| merges[i]@)
}

/// `run` names positions of `keys`, at least one.
pub open spec fn run_in(keys: Seq<Key>, run: Run) -> bool {
    run.len >= 1 && run.first + run.len <= keys.len()
}

/// The file that stands for a run: its first.
pub open spec fn representative(keys: Seq<Key>, run: Run) -> usize {
    keys[run.first as int].2
}

/// The files of a run, in catalog order.
pub open spec fn members(keys: Seq<Key>, run: Run) -> Seq<usize> {
    Seq::new(run.len as nat, |k: int| keys[run.first + k].2)
}

/// The size of the files of a run.
pub open spec fn run_size(keys: Seq<Key>, run: Run) -> u64 {
    keys[run.first as int].0 as u64
}

/// The merge of `absorb` into `keep`.
pub open spec fn merge_plan(keys: Seq<Key>, keep: Run, absorb: Run) -> MergePlan {
    MergePlan {
        survivor: representative(keys, keep),
        duplicates: members(keys, absorb),
        size: run_size(keys, keep),
    }
}

/// Of two runs found identical, the one to keep: the longer, and the second
/// if they are equally long.
pub open spec fn kept(first: Run, second: Run) -> Run {
    if first.len > second.len {
        first
    } else {
        second
    }
}

/// Of two runs found identical, the one to absorb: the other one.
pub open spec fn absorbed(first: Run, second: Run) -> Run {
    if first.len > second.len {
        second
    } else {
        first
    }
}

/// Chooses which of two runs is kept and which absorbed: the shorter run is
/// absorbed into the longer, which needs the fewest new links.
pub fn direction(first: Run, second: Run) -> (pair: (Run, Run))
    ensures
        pair.0 == kept(first, second),
        pair.1 == absorbed(first, second),
        pair.0.len >= pair.1.len,
        pair == (first, second) || pair == (second, first),
{
    if first.len > second.len {
        (first, second)
    } else {
        (second, first)
    }
}

/// The file that stands for `run`.
pub fn first_file(keys: &Vec<Key>, run: Run) -> (file: usize)
    requires
        run_in(keys@, run),
    ensures
        file == representative(keys@, run),
{
    keys[run.first].2
}

/// Plans the merge of `absorb` into `keep`: one new link for each file of
/// `absorb`, all to the first file of `keep`.
pub fn merge_runs(keys: &Vec<Key>, keep: Run, absorb: Run) -> (merge: Merge)
    requires
        run_in(keys@, keep),
        run_in(keys@, absorb),
        keys@[keep.first as int].0 <= u64::MAX,
    ensures
        merge@ == merge_plan(keys@, keep, absorb),
        merge@.duplicates.len() == absorb.len,
{
    let total = keys.len();
    let mut duplicates: Vec<usize> = Vec::new();
    let mut k: usize = 0;
    while k < absorb.len
        invariant
            run_in(keys@, absorb),
            keys@.len() == total,
            k <= absorb.len,
            duplicates@.len() == k,
            forall|j: int| 0 <= j < k ==> duplicates@[j] == keys@[absorb.first + j].2,
        decreases absorb.len - k,
    {
        duplicates.push(keys[absorb.first + k].2);
        k += 1;
    }
    assert(duplicates@ =~= members(keys@, absorb));
    Merge { survivor: keys[keep.first].2, duplicates, size: keys[keep.first].0 as u64 }
}

/// The identity tokens of all files once the links of `plan` are made: each
/// duplicate takes the survivor's token.
pub open spec fn relinked(tokens: Seq<u128>, plan: MergePlan) -> Seq<u128> {
    Seq::new(
        tokens.len(),
        |f: int|
            if plan.duplicates.contains(f as usize) {
                tokens[plan.survivor as int]
            } else {
                tokens[f]
            },
    )
}

/// Once the links of a merge are made, every file of the two runs is the
/// same physical file: it has the token that the kept run had.
pub proof fn law_merge_unites(tokens: Seq<u128>, keys: Seq<Key>, keep: Run, absorb: Run, p: int)
    requires
        run_in(keys, keep),
        run_in(keys, absorb),
        forall|q: int| 0 <= q < keys.len() ==> (#[trigger] keys[q]).2 < tokens.len(),
        forall|q: int| 0 <= q < keys.len() ==> tokens[(#[trigger] keys[q]).2 as int] == keys[q].1,
        forall|q: int|
            keep.first <= q < keep.first + keep.len ==> (#[trigger] keys[q]).1
                == keys[keep.first as int].1,
        keep.first <= p < keep.first + keep.len || absorb.first <= p < absorb.first + absorb.len,
    ensures
        relinked(tokens, merge_plan(keys, keep, absorb))[keys[p].2 as int]
            == keys[keep.first as int].1,
{
    let plan = merge_plan(keys, keep, absorb);
    if absorb.first <= p < absorb.first + absorb.len {
        assert(plan.duplicates[p - absorb.first] == keys[p].2);
        assert(plan.duplicates.contains(keys[p].2));
    }
}

/// A merge makes as many links as the absorbed run has files, and the
/// absorbed run is never the longer of the two.
pub proof fn law_merge_absorbs_shorter(keys: Seq<Key>, first: Run, second: Run)
    ensures
        merge_plan(keys, kept(first, second), absorbed(first, second)).duplicates.len() == if first.len
            <= second.len {
            first.len
        } else {
            second.len
        },
        merge_plan(keys, kept(first, second), absorbed(first, second)).survivor == representative(
            keys,
            if first.len > second.len {
                first
            } else {
                second
            },
        ),
{
}

/// What the first `upto` of `merges` add to the counters.
pub open spec fn merges_tally(merges: Seq<MergePlan>, upto: int) -> Tally
    decreases upto,
{
    if upto <= 0 {
        Tally::zero()
    } else {
        merges_tally(merges, upto - 1).with_merge(
            merges[upto - 1].duplicates.len(),
            merges[upto - 1].size as nat,
        )
    }
}

/// Counts what `merges` add to the counters: for each merge one run, its
/// files as merged files and as links, and one file's size as bytes saved.
pub fn tally_merges(merges: &Vec<Merge>) -> (stats: Statistics)
    ensures
        stats@ == merges_tally(plans(merges@), merges@.len() as int),
        stats.buckets == 0,
        stats.bucket_files == 0,
        stats.fully_linked == 0,
        stats.linked_bytes == 0,
        stats.pairs == 0,
        stats.comparisons == 0,
        stats.sample_hashes == 0,
        stats.content_hashes == 0,
        stats.content_hash_bytes == 0,
{
    let total = merges.len();
    let mut stats = Statistics::new();
    let mut j: usize = 0;
    while j < total
        invariant
            total == merges@.len(),
            j <= total,
            stats@ == merges_tally(plans(merges@), j as int),
            stats.buckets == 0,
            stats.bucket_files == 0,
            stats.fully_linked == 0,
            stats.linked_bytes == 0,
            stats.pairs == 0,
            stats.comparisons == 0,
            stats.sample_hashes == 0,
            stats.content_hashes == 0,
            stats.content_hash_bytes == 0,
            stats.merges <= j,
            stats.merged_files <= j * 0xFFFF_FFFF_FFFF_FFFF,
            stats.links <= j * 0xFFFF_FFFF_FFFF_FFFF,
            stats.saved_bytes <= j * 0xFFFF_FFFF_FFFF_FFFF,
        decreases total - j,
    {
        let files = merges[j].duplicates.len() as u128;
        let size = merges[j].size as u128;
        assert(plans(merges@)[j as int] == merges@[j as int]@);
        stats.merges = stats.merges + 1;
        stats.merged_files = stats.merged_files + files;
        stats.links = stats.links + files;
        stats.saved_bytes = stats.saved_bytes + size;
        j += 1;
    }
    stats
}

} // verus!
