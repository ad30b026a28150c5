//! Buckets and runs. A bucket is a maximal range of the catalog whose keys
//! share a size; a run is a maximal range of a bucket whose keys share an
//! identity token, that is, names of one physical file.

use vstd::prelude::*;
use crate::order::{ascending, key_lt, Key};

verus! {

/// A range of catalog positions: `first`, and `len` positions from there.
#[derive(Clone, Copy, Debug, PartialEq, Eq, Structural)]
pub struct Run {
    pub first: usize,
    pub len: usize,
}

/// The position after the last key that shares its size with all keys from
/// `start` up to it.
pub open spec fn bucket_end(keys: Seq<Key>, start: int) -> int
    decreases keys.len() - start,
{
    if 0 <= start && start + 1 < keys.len() && keys[start + 1].0 == keys[start].0 {
        bucket_end(keys, start + 1)
    } else {
        start + 1
    }
}

/// The position after the last key before `limit` that shares its token
/// with all keys from `start` up to it.
pub open spec fn run_end(keys: Seq<Key>, start: int, limit: int) -> int
    decreases limit - start,
{
    if 0 <= start && start + 1 < limit && keys[start + 1].1 == keys[start].1 {
        run_end(keys, start + 1, limit)
    } else {
        start + 1
    }
}

/// The runs that make up the range from `start` to `end`, in order.
pub open spec fn runs_of(keys: Seq<Key>, start: int, end: int) -> Seq<Run>
    decreases end - start,
{
    if 0 <= start < end {
        let next = run_end(keys, start, end);
        if start < next <= end {
            seq![Run { first: start as usize, len: (next - start) as usize }] + runs_of(
                keys,
                next,
                end,
            )
        } else {
            Seq::empty()
        }
    } else {
        Seq::empty()
    }
}

/// All keys from `start` up to `end` have one size.
pub open spec fn one_size(keys: Seq<Key>, start: int, end: int) -> bool {
    forall|p: int| start <= p < end ==> (#[trigger] keys[p]).0 == keys[start].0
}

/// The range from `start` to `end` is a bucket: one size throughout, and a
/// different size on either side.
pub open spec fn is_bucket(keys: Seq<Key>, start: int, end: int) -> bool {
    &&& 0 <= start < end <= keys.len()
    &&& one_size(keys, start, end)
    &&& start > 0 ==> keys[start - 1].0 != keys[start].0
    &&& end < keys.len() ==> keys[end].0 != keys[start].0
}

/// `run` lies between `start` and `end`, is not empty, and its keys share
/// one token.
pub open spec fn run_within(keys: Seq<Key>, start: int, end: int, run: Run) -> bool {
    &&& run.len >= 1
    &&& start <= run.first
    &&& run.first + run.len <= end
    &&& forall|p: int|
        run.first <= p < run.first + run.len ==> (#[trigger] keys[p]).1 == keys[run.first as int].1
}

/// `runs` are runs of one bucket, no two of them with the same token.
pub open spec fn separate_runs(keys: Seq<Key>, start: int, end: int, runs: Seq<Run>) -> bool {
    &&& forall|k: int| 0 <= k < runs.len() ==> run_within(keys, start, end, #[trigger] runs[k])
    &&& forall|j: int, k: int|
        0 <= j < k < runs.len() ==> keys[(#[trigger] runs[j]).first as int].1 != keys[(
        #[trigger] runs[k]).first as int].1
}

/// `runs` split the range from `start` to `end` into its runs: they follow
/// one another without gap from `start` to `end`, each holds one token, and
/// the token changes from each run to the next.
pub open spec fn tiles(keys: Seq<Key>, start: int, end: int, runs: Seq<Run>) -> bool {
    &&& runs.len() >= 1
    &&& runs[0].first == start
    &&& runs.last().first + runs.last().len == end
    &&& forall|k: int| 0 <= k < runs.len() ==> run_within(keys, start, end, #[trigger] runs[k])
    &&& forall|k: int|
        0 <= k < runs.len() - 1 ==> (#[trigger] runs[k]).first + runs[k].len == runs[k + 1].first
    &&& forall|k: int|
        0 <= k < runs.len() - 1 ==> keys[(#[trigger] runs[k]).first as int].1 != keys[runs[k
            + 1].first as int].1
}

/// What [`bucket_end`] finds.
pub proof fn lemma_bucket_end(keys: Seq<Key>, start: int)
    requires
        0 <= start < keys.len(),
    ensures
        start < bucket_end(keys, start) <= keys.len(),
        one_size(keys, start, bucket_end(keys, start)),
        bucket_end(keys, start) < keys.len() ==> keys[bucket_end(keys, start)].0 != keys[start].0,
    decreases keys.len() - start,
{
    if start + 1 < keys.len() && keys[start + 1].0 == keys[start].0 {
        lemma_bucket_end(keys, start + 1);
        let end = bucket_end(keys, start + 1);
        assert forall|p: int| start <= p < end implies (#[trigger] keys[p]).0 == keys[start].0 by {
            if p > start {
                assert(keys[p].0 == keys[start + 1].0);
            }
        }
    }
}

/// What [`run_end`] finds.
pub proof fn lemma_run_end(keys: Seq<Key>, start: int, limit: int)
    requires
        0 <= start < limit <= keys.len(),
    ensures
        start < run_end(keys, start, limit) <= limit,
        forall|p: int|
            start <= p < run_end(keys, start, limit) ==> (#[trigger] keys[p]).1 == keys[start].1,
        run_end(keys, start, limit) < limit ==> keys[run_end(keys, start, limit)].1
            != keys[start].1,
    decreases limit - start,
{
    if start + 1 < limit && keys[start + 1].1 == keys[start].1 {
        lemma_run_end(keys, start + 1, limit);
        let end = run_end(keys, start + 1, limit);
        assert forall|p: int| start <= p < end implies (#[trigger] keys[p]).1 == keys[start].1 by {
            if p > start {
                assert(keys[p].1 == keys[start + 1].1);
            }
        }
    }
}

/// The runs of a range tile it.
pub proof fn lemma_runs_tile(keys: Seq<Key>, start: int, end: int)
    requires
        0 <= start < end <= keys.len(),
        end <= usize::MAX,
    ensures
        tiles(keys, start, end, runs_of(keys, start, end)),
        runs_of(keys, start, end).len() <= end - start,
    decreases end - start,
{
    lemma_run_end(keys, start, end);
    let next = run_end(keys, start, end);
    let head = Run { first: start as usize, len: (next - start) as usize };
    let runs = runs_of(keys, start, end);
    if next < end {
        lemma_runs_tile(keys, next, end);
        let rest = runs_of(keys, next, end);
        assert(runs =~= seq![head] + rest);
        assert(runs.last() == rest.last());
        assert forall|k: int| 0 <= k < runs.len() implies run_within(
            keys,
            start,
            end,
            #[trigger] runs[k],
        ) by {
            if k > 0 {
                assert(runs[k] == rest[k - 1]);
                assert(run_within(keys, next, end, rest[k - 1]));
            }
        }
        assert forall|k: int| 0 <= k < runs.len() - 1 implies (#[trigger] runs[k]).first
            + runs[k].len == runs[k + 1].first by {
            if k > 0 {
                assert(runs[k] == rest[k - 1]);
                assert(runs[k + 1] == rest[k]);
            } else {
                assert(runs[1] == rest[0]);
            }
        }
        assert forall|k: int| 0 <= k < runs.len() - 1 implies keys[(
        #[trigger] runs[k]).first as int].1 != keys[runs[k + 1].first as int].1 by {
            if k > 0 {
                assert(runs[k] == rest[k - 1]);
                assert(runs[k + 1] == rest[k]);
            } else {
                assert(runs[1] == rest[0]);
            }
        }
    } else {
        assert(runs_of(keys, next, end) =~= Seq::<Run>::empty());
        assert(runs =~= seq![head]);
    }
}

/// In an ascending catalog the runs that tile a range of one size have
/// pairwise different tokens.
pub proof fn lemma_tiles_separate(keys: Seq<Key>, start: int, end: int, runs: Seq<Run>)
    requires
        ascending(keys),
        0 <= start < end <= keys.len(),
        one_size(keys, start, end),
        tiles(keys, start, end, runs),
    ensures
        separate_runs(keys, start, end, runs),
        forall|j: int, k: int|
            0 <= j < k < runs.len() ==> (#[trigger] runs[j]).first + runs[j].len <= (
            #[trigger] runs[k]).first,
{
    assert forall|j: int, k: int| 0 <= j < k < runs.len() implies (#[trigger] runs[j]).first
        + runs[j].len <= (#[trigger] runs[k]).first by {
        lemma_tiles_ordered(keys, start, end, runs, j, k);
    }
    assert forall|j: int, k: int| 0 <= j < k < runs.len() implies keys[(
    #[trigger] runs[j]).first as int].1 != keys[(#[trigger] runs[k]).first as int].1 by {
        lemma_tiles_ordered(keys, start, end, runs, j, k - 1);
        // The token of run k - 1 is at most the token of run k and differs from it.
        let a = runs[j].first as int;
        let b = runs[k - 1].first as int;
        let c = runs[k].first as int;
        assert(run_within(keys, start, end, runs[j]));
        assert(run_within(keys, start, end, runs[k - 1]));
        assert(run_within(keys, start, end, runs[k]));
        assert(keys[a].0 == keys[start].0 && keys[b].0 == keys[start].0 && keys[c].0
            == keys[start].0);
        if a < b {
            assert(key_lt(keys[a], keys[b]));
        }
        assert(key_lt(keys[b], keys[c]));
    }
}

/// Runs that tile a range stand in it in order.
proof fn lemma_tiles_ordered(keys: Seq<Key>, start: int, end: int, runs: Seq<Run>, j: int, k: int)
    requires
        tiles(keys, start, end, runs),
        0 <= j <= k < runs.len(),
    ensures
        j < k ==> runs[j].first + runs[j].len <= runs[k].first,
        runs[j].first <= runs[k].first,
    decreases k - j,
{
    if j < k {
        lemma_tiles_ordered(keys, start, end, runs, j, k - 1);
        assert(runs[k - 1].first + runs[k - 1].len == runs[k].first);
        assert(run_within(keys, start, end, runs[k - 1]));
        assert(run_within(keys, start, end, runs[j]));
    }
}

/// Finds where the bucket that begins at `start` ends.
pub fn find_bucket_end(keys: &Vec<Key>, start: usize) -> (end: usize)
    requires
        start < keys@.len(),
    ensures
        end == bucket_end(keys@, start as int),
        start < end <= keys@.len(),
{
    let total = keys.len();
    let mut end: usize = start + 1;
    while end < keys.len() && keys[end].0 == keys[end - 1].0
        invariant
            start < end <= keys@.len(),
            bucket_end(keys@, start as int) == bucket_end(keys@, end - 1),
        decreases keys@.len() - end,
    {
        end += 1;
    }
    end
}

/// Splits the range from `start` to `end` into its runs.
pub fn split_runs(keys: &Vec<Key>, start: usize, end: usize) -> (runs: Vec<Run>)
    requires
        start < end <= keys@.len(),
    ensures
        runs@ == runs_of(keys@, start as int, end as int),
        tiles(keys@, start as int, end as int, runs@),
        runs@.len() <= end - start,
{
    let total = keys.len();
    let mut runs: Vec<Run> = Vec::new();
    let mut first: usize = start;
    while first < end
        invariant
            start <= first <= end <= keys@.len(),
            runs_of(keys@, start as int, end as int) == runs@ + runs_of(
                keys@,
                first as int,
                end as int,
            ),
        decreases end - first,
    {
        let mut next: usize = first + 1;
        while next < end && keys[next].1 == keys[next - 1].1
            invariant
                first < next <= end <= keys@.len(),
                run_end(keys@, first as int, end as int) == run_end(
                    keys@,
                    next - 1,
                    end as int,
                ),
            decreases end - next,
        {
            next += 1;
        }
        proof {
            lemma_run_end(keys@, first as int, end as int);
            let tail = runs_of(keys@, next as int, end as int);
            let head = Run { first, len: (next - first) as usize };
            assert(runs_of(keys@, first as int, end as int) =~= seq![head] + tail);
            assert(runs@.push(head) + tail =~= runs@ + (seq![head] + tail));
        }
        runs.push(Run { first, len: next - first });
        first = next;
    }
    proof {
        assert(runs_of(keys@, end as int, end as int) =~= Seq::<Run>::empty());
        assert(runs@ + Seq::<Run>::empty() =~= runs@);
        lemma_runs_tile(keys@, start as int, end as int);
    }
    runs
}

} // verus!
