//! What holds of the resolver whatever the files are and whatever the
//! caller answers.

use vstd::prelude::*;
use crate::compare::ContentHash;
use crate::group::{
    bucket_end, is_bucket, lemma_bucket_end, lemma_run_end, lemma_runs_tile, run_end, run_within,
    runs_of, tiles, Run,
};
use crate::merge::{merge_plan, merges_tally, MergePlan};
use crate::order::{
    arranged, arrangement, ascending, key_lt, lemma_arrangement_exists, Key,
};
use crate::rank::{
    content_merges, digest_merges, digest_wants, leader, lemma_leader, ranked, sample_wants,
};
use crate::record::{catalog_of, describes, FileRecord};
use crate::resolver::{
    digests_given, group_at, initial, pair_absorbed, pair_kept, request_of, resume,
    samples_given, settle, step_of, well_formed, ReplyView, RequestView, ResolverView, StageView,
};
use crate::stats::Tally;

verus! {

/// The resolver never asks to compare two names of one physical file: the
/// two files of a comparison have the same size and different identities.
pub proof fn law_comparison_crosses_identities(files: Seq<FileRecord>, s: ResolverView)
    requires
        well_formed(s),
        catalog_of(files, s.keys),
        request_of(s) is Compare,
    ensures
        request_of(s) matches RequestView::Compare { left, right } ==> {
            &&& left < files.len()
            &&& right < files.len()
            &&& files[left as int].size == files[right as int].size
            &&& files[left as int].identity is Known
            &&& files[right as int].identity is Known
            &&& files[left as int].identity != files[right as int].identity
        },
{
    match s.stage {
        StageView::Pair { keep, absorb } => {
            let a = keep.first as int;
            let b = absorb.first as int;
            assert(run_within(s.keys, s.start, s.cur, keep));
            assert(run_within(s.keys, s.start, s.cur, absorb));
            assert(describes(files, s.keys[a]));
            assert(describes(files, s.keys[b]));
            assert(s.keys[a].0 == s.keys[s.start].0);
            assert(s.keys[b].0 == s.keys[s.start].0);
        },
        _ => {},
    }
}

/// Two runs whose first files are found to hold the same bytes are merged:
/// the step that is told so decides exactly the merge of the one into the
/// other.
pub proof fn law_confirmed_pair_is_merged(s: ResolverView, keep: Run, absorb: Run)
    requires
        s.stage == (StageView::Pair { keep, absorb }),
    ensures
        step_of(s, ReplyView::Compared(true)).1.merges == seq![merge_plan(s.keys, keep, absorb)],
{
}

/// Two runs whose first files are not found to hold the same bytes are left
/// alone: unless the reply says that they are the same, the step decides
/// no merge.
pub proof fn law_unconfirmed_pair_is_left(s: ResolverView, reply: ReplyView)
    requires
        s.stage is Pair,
        reply != ReplyView::Compared(true),
    ensures
        step_of(s, reply).1.merges == Seq::<MergePlan>::empty(),
{
}

/// Sample hashes decide no merge: whatever hashes the caller reports, the
/// step that takes them merges nothing.
pub proof fn law_samples_merge_nothing(s: ResolverView, reply: ReplyView)
    requires
        s.stage is Samples || s.stage is Idle || s.stage is Finished,
    ensures
        step_of(s, reply).1.merges == Seq::<MergePlan>::empty(),
{
}

/// Every merge that content hashes decide joins two runs of the group with
/// the same content hash, the absorbed one standing later in the group.
pub proof fn law_digest_merges_join_equals(
    keys: Seq<Key>,
    group: Seq<Run>,
    digests: Seq<Option<ContentHash>>,
    i: int,
)
    requires
        digests.len() == group.len(),
        group.len() <= usize::MAX,
        0 <= i < content_merges(keys, group, digests).len(),
    ensures
        exists|a: int, b: int|
            0 <= a < b < group.len() && digests[a] is Some && digests[a] == digests[b]
                && content_merges(keys, group, digests)[i] == merge_plan(keys, group[a], group[b]),
{
    let wanted = digest_wants(digests);
    let order = arranged(wanted);
    lemma_arrangement_exists(wanted);
    lemma_digest_merge_at(keys, group, digests, order, order.len() as int, i);
}

/// The merge at index `i` among those of the first `upto` positions of a
/// digest order joins two runs with the same content hash.
proof fn lemma_digest_merge_at(
    keys: Seq<Key>,
    group: Seq<Run>,
    digests: Seq<Option<ContentHash>>,
    order: Seq<Key>,
    upto: int,
    i: int,
)
    requires
        digests.len() == group.len(),
        arrangement(digest_wants(digests), order),
        0 <= upto <= order.len(),
        0 <= i < digest_merges(keys, group, order, upto).len(),
    ensures
        exists|a: int, b: int|
            0 <= a < b < group.len() && digests[a] is Some && digests[a] == digests[b]
                && digest_merges(keys, group, order, upto)[i] == merge_plan(
                keys,
                group[a],
                group[b],
            ),
    decreases upto,
{
    let j = upto - 1;
    let before = digest_merges(keys, group, order, j);
    if leader(order, j) != j && i == before.len() {
        let l = leader(order, j);
        lemma_leader(order, j);
        let a = order[l].2 as int;
        let b = order[j].2 as int;
        assert(order.contains(order[l]));
        assert(order.contains(order[j]));
        assert(key_lt(order[l], order[j]));
        let wanted = digest_wants(digests);
        assert(wanted[a] == Some((order[l].0, order[l].1)));
        assert(wanted[b] == Some((order[j].0, order[j].1)));
        assert(digests[a] is Some && digests[b] is Some);
        assert(digests[a] == digests[b]);
        assert(digest_merges(keys, group, order, upto)[i] == merge_plan(keys, group[a], group[b]));
    } else {
        lemma_digest_merge_at(keys, group, digests, order, j, i);
        let (a, b) = choose|a: int, b: int|
            0 <= a < b < group.len() && digests[a] is Some && digests[a] == digests[b] && before[i]
                == merge_plan(keys, group[a], group[b]);
        assert(digest_merges(keys, group, order, upto)[i] == merge_plan(keys, group[a], group[b]));
    }
}

/// Content hashes merge only what the caller reported: the merges that a
/// step decides from them are those of the hashes given, and a reply of
/// another kind or length gives no hash and so no merge.
pub proof fn law_digest_step_merges(s: ResolverView, reply: ReplyView, group: Seq<Run>)
    requires
        s.stage == (StageView::Digests { group }),
    ensures
        step_of(s, reply).1.merges == content_merges(
            s.keys,
            group,
            digests_given(reply, group.len()),
        ),
{
}

/// Every two files of one size are one physical file.
pub open spec fn all_linked(keys: Seq<Key>) -> bool {
    forall|p: int, q: int|
        0 <= p < keys.len() && 0 <= q < keys.len() && (#[trigger] keys[p]).0 == (
        #[trigger] keys[q]).0 ==> keys[p].1 == keys[q].1
}

/// The bytes that existing links save among the first `upto` files of a
/// catalog: the size of each file that has the size of the file before it.
pub open spec fn repeated_bytes(keys: Seq<Key>, upto: int) -> nat
    decreases upto,
{
    if upto <= 1 {
        0
    } else {
        repeated_bytes(keys, upto - 1) + if keys[upto - 1].0 == keys[upto - 2].0 {
            keys[upto - 1].0 as nat
        } else {
            0
        }
    }
}

/// Within a bucket each file after the first repeats the size.
proof fn lemma_repeated_in_bucket(keys: Seq<Key>, start: int, end: int)
    requires
        0 <= start < end <= keys.len(),
        forall|p: int| start <= p < end ==> (#[trigger] keys[p]).0 == keys[start].0,
        start > 0 ==> keys[start - 1].0 != keys[start].0,
    ensures
        repeated_bytes(keys, end) == repeated_bytes(keys, start) + (end - start - 1) * (
        keys[start].0 as nat),
    decreases end - start,
{
    if end - start == 1 {
        if start > 0 {
            assert(repeated_bytes(keys, end) == repeated_bytes(keys, start));
        } else {
            assert(repeated_bytes(keys, 1) == 0);
            assert(repeated_bytes(keys, 0) == 0);
        }
    } else {
        lemma_repeated_in_bucket(keys, start, end - 1);
        assert(keys[end - 1].0 == keys[start].0);
        assert(keys[end - 2].0 == keys[start].0);
        let size = keys[start].0 as nat;
        assert((end - start - 1) * size == (end - 1 - start - 1) * size + size)
            by (nonlinear_arith);
    }
}

/// A range of files of one token is one run.
proof fn lemma_one_run(keys: Seq<Key>, start: int, end: int)
    requires
        0 <= start < end <= keys.len(),
        forall|p: int| start <= p < end ==> (#[trigger] keys[p]).1 == keys[start].1,
    ensures
        runs_of(keys, start, end).len() == 1,
{
    lemma_run_end(keys, start, end);
    let next = run_end(keys, start, end);
    assert(next == end);
    assert(runs_of(keys, end, end) =~= Seq::<Run>::empty());
}

/// From a bucket boundary on, a catalog in which all files of one size are
/// one physical file is passed over without a request.
proof fn lemma_linked_rest(keys: Seq<Key>, start: int, cur: int, tally: Tally)
    requires
        all_linked(keys),
        0 <= cur <= keys.len(),
        0 < cur < keys.len() ==> keys[cur - 1].0 != keys[cur].0,
    ensures
        ({
            let r = resume(keys, start, cur, Seq::empty(), Seq::empty(), 0, tally);
            &&& r.stage is Finished
            &&& r.cur == keys.len()
            &&& r.tally.fully_linked - tally.fully_linked == r.tally.buckets - tally.buckets
            &&& r.tally.linked_bytes + repeated_bytes(keys, cur) == tally.linked_bytes
                + repeated_bytes(keys, keys.len() as int)
            &&& r.tally.pairs == tally.pairs
            &&& r.tally.comparisons == tally.comparisons
            &&& r.tally.sample_hashes == tally.sample_hashes
            &&& r.tally.content_hashes == tally.content_hashes
            &&& r.tally.content_hash_bytes == tally.content_hash_bytes
            &&& r.tally.merges == tally.merges
            &&& r.tally.merged_files == tally.merged_files
            &&& r.tally.links == tally.links
            &&& r.tally.saved_bytes == tally.saved_bytes
        }),
    decreases keys.len() - cur,
{
    if cur < keys.len() {
        lemma_bucket_end(keys, cur);
        let end = bucket_end(keys, cur);
        lemma_repeated_in_bucket(keys, cur, end);
        let files = (end - cur) as nat;
        if files == 1 {
            lemma_linked_rest(keys, cur, end, tally);
        } else {
            assert forall|p: int| cur <= p < end implies (#[trigger] keys[p]).1 == keys[cur].1 by {
                assert(keys[p].0 == keys[cur].0);
            }
            lemma_one_run(keys, cur, end);
            lemma_linked_rest(keys, cur, end, tally.with_linked_bucket(files, keys[cur].0 as nat));
        }
    }
}

/// A file set in which all files of one size are one physical file already,
/// as it is after every duplicate was linked, is recognised as such without
/// reading a file: the first step finishes, asks for no comparison and no
/// hash, decides no merge and no link, counts every bucket as linked
/// already, and counts as saved the size of every name beyond the first of
/// each physical file.
pub proof fn law_linked_set_is_left_alone(
    keys: Seq<Key>,
    prefix_len: u64,
    link: bool,
    reply: ReplyView,
)
    requires
        all_linked(keys),
    ensures
        ({
            let (next, step) = step_of(initial(keys, prefix_len, link), reply);
            &&& next.stage is Finished
            &&& step.request is Finished
            &&& step.merges == Seq::<MergePlan>::empty()
            &&& step.tally.links == 0
            &&& step.tally.merges == 0
            &&& step.tally.merged_files == 0
            &&& step.tally.saved_bytes == 0
            &&& step.tally.comparisons == 0
            &&& step.tally.sample_hashes == 0
            &&& step.tally.content_hashes == 0
            &&& step.tally.fully_linked == step.tally.buckets
            &&& step.tally.linked_bytes == repeated_bytes(keys, keys.len() as int)
        }),
{
    lemma_linked_rest(keys, 0, 0, Tally::zero());
    assert(repeated_bytes(keys, 0) == 0);
}

/// Two files of one size that are not yet one physical file are compared,
/// the first of the catalog against the second, and nothing is decided
/// before the answer.
pub proof fn law_two_files_are_compared(
    keys: Seq<Key>,
    prefix_len: u64,
    link: bool,
    reply: ReplyView,
)
    requires
        keys.len() == 2,
        keys[0].0 == keys[1].0,
        keys[0].1 != keys[1].1,
    ensures
        ({
            let (next, step) = step_of(initial(keys, prefix_len, link), reply);
            &&& next.stage == (StageView::Pair {
                keep: Run { first: 0, len: 1 },
                absorb: Run { first: 1, len: 1 },
            })
            &&& next.keys == keys
            &&& next.cur == 2
            &&& next.pos == 0
            &&& next.order == Seq::<Key>::empty()
            &&& step.request == (RequestView::Compare { left: keys[0].2, right: keys[1].2 })
            &&& step.merges == Seq::<MergePlan>::empty()
            &&& step.tally.comparisons == 0
        }),
{
    reveal_with_fuel(bucket_end, 3);
    reveal_with_fuel(run_end, 3);
    reveal_with_fuel(runs_of, 3);
    assert(bucket_end(keys, 0) == 2);
    let found = runs_of(keys, 0, 2);
    assert(run_end(keys, 0, 2) == 1);
    assert(run_end(keys, 1, 2) == 2);
    assert(runs_of(keys, 2, 2) =~= Seq::<Run>::empty());
    assert(found =~= seq![Run { first: 0, len: 1 }, Run { first: 1, len: 1 }]);
}

/// Of two files of one size that are found to hold the same bytes, the
/// second is to become a link to the first, which makes them one physical
/// file; that done, the resolver has finished. If they are not found to
/// hold the same bytes, nothing is decided.
pub proof fn law_two_files_are_settled(
    keys: Seq<Key>,
    prefix_len: u64,
    link: bool,
    first: ReplyView,
    answer: ReplyView,
)
    requires
        keys.len() == 2,
        keys[0].0 == keys[1].0,
        keys[0].0 <= u64::MAX,
        keys[0].1 != keys[1].1,
    ensures
        ({
            let waiting = step_of(initial(keys, prefix_len, link), first).0;
            let (next, step) = step_of(waiting, answer);
            &&& step.request is Finished
            &&& step.link == link
            &&& step.tally.comparisons == 1
            &&& answer == ReplyView::Compared(true) ==> step.merges == seq![
                MergePlan {
                    survivor: keys[0].2,
                    duplicates: seq![keys[1].2],
                    size: keys[0].0 as u64,
                },
            ] && step.tally.links == 1 && step.tally.saved_bytes == keys[0].0 as u64
            &&& answer != ReplyView::Compared(true) ==> step.merges == Seq::<MergePlan>::empty()
                && step.tally.links == 0 && step.tally.saved_bytes == 0
        }),
{
    law_two_files_are_compared(keys, prefix_len, link, first);
    let waiting = step_of(initial(keys, prefix_len, link), first).0;
    let keep = Run { first: 0, len: 1 };
    let absorb = Run { first: 1, len: 1 };
    let plan = merge_plan(keys, keep, absorb);
    assert(plan.duplicates =~= seq![keys[1].2]);
    reveal_with_fuel(bucket_end, 3);
    reveal_with_fuel(merges_tally, 2);
    let merges = seq![plan];
    assert(merges_tally(merges, 0) == Tally::zero());
}

/// The merges among fewer positions of a digest order are the first of the
/// merges among more.
proof fn lemma_digest_merges_grow(keys: Seq<Key>, group: Seq<Run>, order: Seq<Key>, fewer: int, more: int)
    requires
        0 <= fewer <= more,
    ensures
        digest_merges(keys, group, order, fewer).len() <= digest_merges(
            keys,
            group,
            order,
            more,
        ).len(),
        forall|i: int|
            0 <= i < digest_merges(keys, group, order, fewer).len() ==> digest_merges(
                keys,
                group,
                order,
                more,
            )[i] == digest_merges(keys, group, order, fewer)[i],
    decreases more - fewer,
{
    if fewer < more {
        lemma_digest_merges_grow(keys, group, order, fewer, more - 1);
    }
}

/// Where two keys of an ascending sequence agree in their first two
/// components, so does every key between them.
proof fn lemma_between(order: Seq<Key>, l: int, m: int, j: int)
    requires
        forall|x: int, y: int| 0 <= x < y < order.len() ==> key_lt(order[x], order[y]),
        0 <= l <= m <= j < order.len(),
        order[l].0 == order[j].0,
        order[l].1 == order[j].1,
    ensures
        order[m].0 == order[l].0,
        order[m].1 == order[l].1,
{
    if l < m {
        assert(key_lt(order[l], order[m]));
    }
    if m < j {
        assert(key_lt(order[m], order[j]));
    }
}

/// Of two runs of a group with the same content hash, the later one is
/// merged into the first run of the group that has that hash. So runs with
/// equal content hashes never stay apart: each of them is that first run
/// or is merged into it.
pub proof fn law_equal_digests_are_merged(
    keys: Seq<Key>,
    group: Seq<Run>,
    digests: Seq<Option<ContentHash>>,
    a: int,
    b: int,
)
    requires
        digests.len() == group.len(),
        group.len() <= usize::MAX,
        0 <= a < b < group.len(),
        digests[a] is Some,
        digests[a] == digests[b],
    ensures
        exists|i: int, t: int|
            0 <= i < content_merges(keys, group, digests).len() && 0 <= t <= a && digests[t]
                == digests[b] && content_merges(keys, group, digests)[i] == merge_plan(
                keys,
                group[t],
                group[b],
            ) && forall|u: int|
                0 <= u < group.len() && #[trigger] digests[u] == digests[b] ==> t <= u,
{
    let wanted = digest_wants(digests);
    let order = arranged(wanted);
    lemma_arrangement_exists(wanted);
    let hash = digests[b]->0;
    let ka: Key = (hash.high, hash.low, a as usize);
    let kb: Key = (hash.high, hash.low, b as usize);
    assert(wanted[a] == Some((hash.high, hash.low)));
    assert(wanted[b] == Some((hash.high, hash.low)));
    assert(order.contains(ka));
    assert(order.contains(kb));
    let l = choose|l: int| 0 <= l < order.len() && order[l] == ka;
    let j = choose|j: int| 0 <= j < order.len() && order[j] == kb;
    if j < l {
        assert(key_lt(order[j], order[l]));
    }
    assert(l < j);
    lemma_between(order, l, j - 1, j);
    lemma_leader(order, j - 1);
    lemma_leader(order, j);
    let lead = leader(order, j);
    assert(lead < j);
    assert(key_lt(order[lead], order[j]));
    let t = order[lead].2 as int;
    assert(order.contains(order[lead]));
    assert(wanted[t] == Some((hash.high, hash.low)));
    assert(digests[t] is Some);
    assert(digests[t] == digests[b]);
    assert forall|u: int| 0 <= u < group.len() && #[trigger] digests[u] == digests[b] implies t
        <= u by {
        let ku: Key = (hash.high, hash.low, u as usize);
        assert(wanted[u] == Some((hash.high, hash.low)));
        assert(order.contains(ku));
        let x = choose|x: int| 0 <= x < order.len() && order[x] == ku;
        if x < lead {
            lemma_between(order, x, lead - 1, lead);
        } else if x > lead {
            assert(key_lt(order[lead], order[x]));
        }
    }
    let i = digest_merges(keys, group, order, j).len() as int;
    assert(digest_merges(keys, group, order, j + 1)[i] == merge_plan(keys, group[t], group[b]));
    lemma_digest_merges_grow(keys, group, order, j + 1, order.len() as int);
    assert(content_merges(keys, group, digests)[i] == merge_plan(keys, group[t], group[b]));
}

/// A stretch of keys that agree in their first component lies within one
/// bucket.
proof fn lemma_bucket_reaches(order: Seq<Key>, p: int, q: int)
    requires
        0 <= p <= q < order.len(),
        forall|m: int| p <= m <= q ==> (#[trigger] order[m]).0 == order[p].0,
    ensures
        bucket_end(order, p) > q,
    decreases q - p,
{
    lemma_bucket_end(order, p);
    if p < q {
        assert(order[p + 1].0 == order[p].0);
        assert forall|m: int| p + 1 <= m <= q implies (#[trigger] order[m]).0 == order[p + 1].0 by {
            assert(order[m].0 == order[p].0);
        }
        lemma_bucket_reaches(order, p + 1, q);
    }
}

/// Two runs with the same sample hash are ranked into one stretch: both
/// are ranked, and the stretch that begins with the one ranked first
/// reaches beyond the other. So they are compared with one another, or
/// content-hashed together.
pub proof fn law_equal_samples_rank_together(
    runs: Seq<Run>,
    samples: Seq<Option<u128>>,
    a: int,
    b: int,
)
    requires
        samples.len() == runs.len(),
        runs.len() <= usize::MAX,
        0 <= a < runs.len(),
        0 <= b < runs.len(),
        a != b,
        samples[a] is Some,
        samples[a] == samples[b],
    ensures
        exists|l: int, j: int|
            0 <= l < j < ranked(runs, samples).len() && bucket_end(ranked(runs, samples), l) > j
                && ((ranked(runs, samples)[l].2 == a && ranked(runs, samples)[j].2 == b) || (ranked(
                runs,
                samples,
            )[l].2 == b && ranked(runs, samples)[j].2 == a)),
{
    let wanted = sample_wants(runs, samples);
    let order = ranked(runs, samples);
    lemma_arrangement_exists(wanted);
    let hash = samples[a]->0;
    let ka: Key = (hash, (usize::MAX - runs[a].len) as u128, a as usize);
    let kb: Key = (hash, (usize::MAX - runs[b].len) as u128, b as usize);
    assert(wanted[a] == Some((ka.0, ka.1)));
    assert(wanted[b] == Some((kb.0, kb.1)));
    assert(order.contains(ka));
    assert(order.contains(kb));
    let x = choose|x: int| 0 <= x < order.len() && order[x] == ka;
    let y = choose|y: int| 0 <= y < order.len() && order[y] == kb;
    let l = if x < y {
        x
    } else {
        y
    };
    let j = if x < y {
        y
    } else {
        x
    };
    assert forall|m: int| l <= m <= j implies (#[trigger] order[m]).0 == order[l].0 by {
        if l < m {
            assert(key_lt(order[l], order[m]));
        }
        if m < j {
            assert(key_lt(order[m], order[j]));
        }
    }
    lemma_bucket_reaches(order, l, j);
}

/// A run without a sample hash is not ranked, so it is compared with
/// nothing and merged with nothing, not even with another such run.
pub proof fn law_unsampled_runs_are_unranked(runs: Seq<Run>, samples: Seq<Option<u128>>, p: int)
    requires
        samples.len() == runs.len(),
        runs.len() <= usize::MAX,
        0 <= p < ranked(runs, samples).len(),
    ensures
        ranked(runs, samples)[p].2 < runs.len(),
        samples[ranked(runs, samples)[p].2 as int] == Some(ranked(runs, samples)[p].0),
{
    let wanted = sample_wants(runs, samples);
    let order = ranked(runs, samples);
    lemma_arrangement_exists(wanted);
    assert(order.contains(order[p]));
}

/// The files from `start` to the end of their bucket are two or more names
/// of one physical file.
pub open spec fn linked_bucket(keys: Seq<Key>, start: int) -> bool {
    let end = bucket_end(keys, start);
    end - start >= 2 && forall|p: int| start <= p < end ==> (#[trigger] keys[p]).1 == keys[start].1
}

/// The bytes that existing links save in the buckets from `from` up to
/// `upto`: for each bucket that is one physical file, the size of every
/// name but one.
pub open spec fn linked_savings(keys: Seq<Key>, from: int, upto: int) -> nat
    decreases upto - from,
{
    if 0 <= from < upto {
        let end = bucket_end(keys, from);
        if from < end <= upto {
            (if linked_bucket(keys, from) {
                ((end - from - 1) * keys[from].0) as nat
            } else {
                0
            }) + linked_savings(keys, end, upto)
        } else {
            0
        }
    } else {
        0
    }
}

/// Merges add nothing to the counters of buckets, comparisons and hashes,
/// and count one merge each.
proof fn lemma_merges_leave_buckets(merges: Seq<MergePlan>, upto: int)
    ensures
        merges_tally(merges, upto).linked_bytes == 0,
        merges_tally(merges, upto).buckets == 0,
        merges_tally(merges, upto).fully_linked == 0,
        merges_tally(merges, upto).comparisons == 0,
        merges_tally(merges, upto).sample_hashes == 0,
        merges_tally(merges, upto).content_hashes == 0,
        merges_tally(merges, upto).content_hash_bytes == 0,
        upto >= 0 ==> merges_tally(merges, upto).merges == upto,
        merges_tally(merges, upto).links == merges_tally(merges, upto).merged_files,
    decreases upto,
{
    if upto > 0 {
        lemma_merges_leave_buckets(merges, upto - 1);
    }
}

/// Going on to the next request counts the savings of exactly the linked
/// buckets that are passed, and finishes only at the end of the catalog.
proof fn lemma_resume_savings(
    keys: Seq<Key>,
    start: int,
    cur: int,
    runs: Seq<Run>,
    order: Seq<Key>,
    pos: int,
    tally: Tally,
)
    requires
        0 <= cur <= keys.len() <= usize::MAX,
        0 <= pos <= order.len(),
    ensures
        ({
            let r = resume(keys, start, cur, runs, order, pos, tally);
            &&& cur <= r.cur <= keys.len()
            &&& r.tally.linked_bytes == tally.linked_bytes + linked_savings(keys, cur, r.cur)
            &&& r.stage is Finished ==> r.cur == keys.len()
            &&& r.stage is Finished || r.cur > cur || (r.cur == cur && r.pos > pos)
            &&& r.tally.comparisons == tally.comparisons
            &&& r.tally.sample_hashes == tally.sample_hashes
            &&& r.tally.content_hashes == tally.content_hashes
            &&& r.tally.content_hash_bytes == tally.content_hash_bytes
            &&& r.tally.merges == tally.merges
            &&& r.tally.merged_files == tally.merged_files
            &&& r.tally.links == tally.links
            &&& r.tally.saved_bytes == tally.saved_bytes
        }),
    decreases keys.len() - cur, order.len() - pos,
{
    if pos < order.len() {
        lemma_bucket_end(order, pos);
        let end = bucket_end(order, pos);
        if end - pos == 1 {
            lemma_resume_savings(keys, start, cur, runs, order, end, tally);
        }
    } else if cur < keys.len() {
        lemma_bucket_end(keys, cur);
        let end = bucket_end(keys, cur);
        let found = runs_of(keys, cur, end);
        lemma_runs_tile(keys, cur, end);
        let files = (end - cur) as nat;
        assert(linked_savings(keys, end, end) == 0);
        if files == 1 {
            lemma_resume_savings(keys, cur, end, Seq::empty(), Seq::empty(), 0, tally);
        } else if found.len() == 1 {
            assert(run_within(keys, cur, end, found[0]));
            assert(linked_bucket(keys, cur));
            lemma_resume_savings(
                keys,
                cur,
                end,
                Seq::empty(),
                Seq::empty(),
                0,
                tally.with_linked_bucket(files, keys[cur].0 as nat),
            );
        } else {
            if linked_bucket(keys, cur) {
                lemma_one_run(keys, cur, end);
            }
        }
    }
}

/// Every step counts as saved by links made earlier the savings of exactly
/// the buckets it passes that are one physical file: for each of them the
/// size of every name but one. No step goes back in the catalog, and the
/// resolver finishes only when the whole catalog is passed. A step that
/// does not finish goes forward, to a later bucket or further in the
/// ranking of the bucket at hand, so the resolver finishes whatever it is
/// answered.
pub proof fn law_step_counts_linked_buckets(s: ResolverView, reply: ReplyView)
    requires
        well_formed(s),
    ensures
        ({
            let (next, step) = step_of(s, reply);
            &&& s.cur <= next.cur <= s.keys.len()
            &&& step.tally.linked_bytes == linked_savings(s.keys, s.cur, next.cur)
            &&& next.stage is Finished ==> next.cur == s.keys.len()
            &&& next.stage is Finished || next.cur > s.cur || (next.cur == s.cur && next.pos
                > s.pos)
        }),
{
    let settled = settle(s, reply);
    lemma_merges_leave_buckets(settled.merges, settled.merges.len() as int);
    assert(settled.tally.linked_bytes == 0);
    lemma_resume_savings(s.keys, s.start, s.cur, s.runs, settled.order, s.pos, settled.tally);
}

/// Every link that a step decides joins two different physical files of
/// one size: the duplicate and the survivor are files of the catalog, have
/// the size that the merge names, and have different identities.
pub proof fn law_merges_join_distinct_files(
    files: Seq<FileRecord>,
    s: ResolverView,
    reply: ReplyView,
    i: int,
    d: int,
)
    requires
        well_formed(s),
        catalog_of(files, s.keys),
        0 <= i < step_of(s, reply).1.merges.len(),
        0 <= d < step_of(s, reply).1.merges[i].duplicates.len(),
    ensures
        ({
            let merge = step_of(s, reply).1.merges[i];
            let survivor = merge.survivor as int;
            let duplicate = merge.duplicates[d] as int;
            &&& survivor < files.len()
            &&& duplicate < files.len()
            &&& files[survivor].size == merge.size
            &&& files[duplicate].size == merge.size
            &&& files[survivor].identity is Known
            &&& files[duplicate].identity is Known
            &&& files[survivor].identity != files[duplicate].identity
        }),
{
    let merge = step_of(s, reply).1.merges[i];
    match s.stage {
        StageView::Pair { keep, absorb } => {
            lemma_joined_runs_differ(files, s, keep, absorb, d);
        },
        StageView::Digests { group } => {
            let digests = digests_given(reply, group.len());
            law_digest_merges_join_equals(s.keys, group, digests, i);
            let (a, b) = choose|a: int, b: int|
                0 <= a < b < group.len() && digests[a] is Some && digests[a] == digests[b]
                    && content_merges(s.keys, group, digests)[i] == merge_plan(
                    s.keys,
                    group[a],
                    group[b],
                );
            assert(run_within(s.keys, s.start, s.cur, group[a]));
            assert(run_within(s.keys, s.start, s.cur, group[b]));
            lemma_joined_runs_differ(files, s, group[a], group[b], d);
        },
        _ => {},
    }
}

/// The files of two runs of the bucket at hand with different tokens are
/// different physical files of one size.
proof fn lemma_joined_runs_differ(
    files: Seq<FileRecord>,
    s: ResolverView,
    keep: Run,
    absorb: Run,
    d: int,
)
    requires
        well_formed(s),
        catalog_of(files, s.keys),
        run_within(s.keys, s.start, s.cur, keep),
        run_within(s.keys, s.start, s.cur, absorb),
        s.keys[keep.first as int].1 != s.keys[absorb.first as int].1,
        0 <= d < absorb.len,
    ensures
        ({
            let merge = merge_plan(s.keys, keep, absorb);
            let survivor = merge.survivor as int;
            let duplicate = merge.duplicates[d] as int;
            &&& survivor < files.len()
            &&& duplicate < files.len()
            &&& files[survivor].size == merge.size
            &&& files[duplicate].size == merge.size
            &&& files[survivor].identity is Known
            &&& files[duplicate].identity is Known
            &&& files[survivor].identity != files[duplicate].identity
        }),
{
    let a = keep.first as int;
    let b = absorb.first + d;
    assert(describes(files, s.keys[a]));
    assert(describes(files, s.keys[b]));
    assert(s.keys[a].0 == s.keys[s.start].0);
    assert(s.keys[b].0 == s.keys[s.start].0);
    assert(s.keys[b].1 == s.keys[absorb.first as int].1);
}

/// The files of a request are files of one size and of pairwise different
/// identities: of each physical file at most one name is read.
pub proof fn law_requests_read_each_file_once(
    files: Seq<FileRecord>,
    s: ResolverView,
    a: int,
    b: int,
)
    requires
        well_formed(s),
        catalog_of(files, s.keys),
        0 <= a < b,
    ensures
        ({
            let asked = match request_of(s) {
                RequestView::Sample { files, length } => files,
                RequestView::Digest { files } => files,
                _ => Seq::empty(),
            };
            b < asked.len() ==> {
                &&& asked[a] < files.len()
                &&& asked[b] < files.len()
                &&& files[asked[a] as int].size == files[asked[b] as int].size
                &&& files[asked[a] as int].identity is Known
                &&& files[asked[b] as int].identity is Known
                &&& files[asked[a] as int].identity != files[asked[b] as int].identity
            }
        }),
{
    let runs = match s.stage {
        StageView::Samples => s.runs,
        StageView::Digests { group } => group,
        _ => Seq::empty(),
    };
    if b < runs.len() {
        let x = runs[a].first as int;
        let y = runs[b].first as int;
        assert(run_within(s.keys, s.start, s.cur, runs[a]));
        assert(run_within(s.keys, s.start, s.cur, runs[b]));
        assert(describes(files, s.keys[x]));
        assert(describes(files, s.keys[y]));
        assert(s.keys[x].0 == s.keys[s.start].0);
        assert(s.keys[y].0 == s.keys[s.start].0);
    }
}

/// Every merge that a step decides absorbs a run into one that is at least
/// as long: both are runs of the bucket at hand, and the links to make are
/// as many as the shorter of the two has files.
pub proof fn law_merges_keep_the_longer(s: ResolverView, reply: ReplyView, i: int)
    requires
        well_formed(s),
        0 <= i < step_of(s, reply).1.merges.len(),
    ensures
        exists|keep: Run, absorb: Run|
            run_within(s.keys, s.start, s.cur, keep) && run_within(s.keys, s.start, s.cur, absorb)
                && keep.len >= absorb.len && step_of(s, reply).1.merges[i] == merge_plan(
                s.keys,
                keep,
                absorb,
            ) && step_of(s, reply).1.merges[i].duplicates.len() == absorb.len,
{
    match s.stage {
        StageView::Pair { keep, absorb } => {
            assert(step_of(s, reply).1.merges[i] == merge_plan(s.keys, keep, absorb));
        },
        StageView::Digests { group } => {
            let digests = digests_given(reply, group.len());
            law_digest_merges_join_equals(s.keys, group, digests, i);
            let (a, b) = choose|a: int, b: int|
                0 <= a < b < group.len() && digests[a] is Some && digests[a] == digests[b]
                    && content_merges(s.keys, group, digests)[i] == merge_plan(
                    s.keys,
                    group[a],
                    group[b],
                );
            assert(run_within(s.keys, s.start, s.cur, group[a]));
            assert(run_within(s.keys, s.start, s.cur, group[b]));
            assert(group[a].len >= group[b].len);
            assert(step_of(s, reply).1.merges[i] == merge_plan(s.keys, group[a], group[b]));
        },
        _ => {},
    }
}

/// Each ranked run from `from` up to `upto` has a sample hash that no
/// neighbour in the ranking shares.
pub open spec fn singles(order: Seq<Key>, from: int, upto: int) -> bool {
    forall|p: int| from <= p < upto ==> #[trigger] bucket_end(order, p) == p + 1
}

/// Neighbours of one size among the files from `from` up to `upto` are one
/// physical file.
pub open spec fn linked_only(keys: Seq<Key>, from: int, upto: int) -> bool {
    forall|p: int|
        from <= p && p + 1 < upto && (#[trigger] keys[p]).0 == keys[p + 1].0 ==> keys[p].1 == keys[p
            + 1].1
}

/// What going on to the next request passes over, and where it stops.
proof fn lemma_resume_passes(
    keys: Seq<Key>,
    start: int,
    cur: int,
    runs: Seq<Run>,
    order: Seq<Key>,
    pos: int,
    tally: Tally,
)
    requires
        0 <= cur <= keys.len() <= usize::MAX,
        0 < cur < keys.len() ==> keys[cur - 1].0 != keys[cur].0,
        0 <= pos <= order.len(),
    ensures
        ({
            let r = resume(keys, start, cur, runs, order, pos, tally);
            &&& cur <= r.cur <= keys.len()
            &&& 0 < r.cur < keys.len() ==> keys[r.cur - 1].0 != keys[r.cur].0
            &&& 0 <= r.pos <= r.order.len()
            &&& r.cur == cur && !(r.stage is Finished) ==> {
                &&& r.order == order
                &&& r.runs == runs
                &&& pos < r.pos <= order.len()
                &&& match r.stage {
                    StageView::Pair { keep, absorb } => {
                        &&& pos <= r.pos - 2
                        &&& singles(order, pos, r.pos - 2)
                        &&& bucket_end(order, r.pos - 2) == r.pos
                        &&& keep == runs[order[r.pos - 2].2 as int]
                        &&& absorb == runs[order[r.pos - 1].2 as int]
                    },
                    StageView::Digests { group } => {
                        &&& group.len() >= 3
                        &&& pos <= r.pos - group.len()
                        &&& singles(order, pos, r.pos - group.len())
                        &&& bucket_end(order, r.pos - group.len()) == r.pos
                        &&& group == group_at(runs, order, r.pos - group.len(), r.pos)
                    },
                    _ => false,
                }
            }
            &&& r.cur > cur || r.stage is Finished ==> {
                &&& singles(order, pos, order.len() as int)
                &&& r.stage is Finished ==> linked_only(keys, cur, keys.len() as int)
                &&& !(r.stage is Finished) ==> {
                    &&& cur <= r.start
                    &&& linked_only(keys, cur, r.start)
                    &&& is_bucket(keys, r.start, r.cur)
                    &&& r.runs == runs_of(keys, r.start, r.cur)
                    &&& r.runs.len() >= 2
                    &&& r.order.len() == 0
                    &&& r.pos == 0
                    &&& r.runs.len() == 2 ==> r.stage == (StageView::Pair {
                        keep: pair_kept(r.runs, (r.cur - r.start) as nat),
                        absorb: pair_absorbed(r.runs, (r.cur - r.start) as nat),
                    })
                    &&& r.runs.len() > 2 ==> r.stage is Samples
                }
            }
        }),
    decreases keys.len() - cur, order.len() - pos,
{
    if pos < order.len() {
        lemma_bucket_end(order, pos);
        let end = bucket_end(order, pos);
        if end - pos == 1 {
            lemma_resume_passes(keys, start, cur, runs, order, end, tally);
            let r = resume(keys, start, cur, runs, order, pos, tally);
            assert(r == resume(keys, start, cur, runs, order, end, tally));
            if r.cur == cur && !(r.stage is Finished) {
                match r.stage {
                    StageView::Pair { keep, absorb } => {
                        assert forall|p: int| pos <= p < r.pos - 2 implies #[trigger] bucket_end(
                            order,
                            p,
                        ) == p + 1 by {
                            if p > pos {
                                assert(singles(order, end, r.pos - 2));
                            }
                        }
                    },
                    StageView::Digests { group } => {
                        assert forall|p: int|
                            pos <= p < r.pos - group.len() implies #[trigger] bucket_end(order, p)
                            == p + 1 by {
                            if p > pos {
                                assert(singles(order, end, r.pos - group.len()));
                            }
                        }
                    },
                    _ => {},
                }
            } else {
                assert forall|p: int| pos <= p < order.len() implies #[trigger] bucket_end(
                    order,
                    p,
                ) == p + 1 by {
                    if p > pos {
                        assert(singles(order, end, order.len() as int));
                    }
                }
            }
        }
    } else if cur < keys.len() {
        lemma_bucket_end(keys, cur);
        let end = bucket_end(keys, cur);
        let found = runs_of(keys, cur, end);
        lemma_runs_tile(keys, cur, end);
        let files = (end - cur) as nat;
        if files == 1 || found.len() == 1 {
            let passed = if files == 1 {
                tally
            } else {
                tally.with_linked_bucket(files, keys[cur].0 as nat)
            };
            assert(keys[end - 1].0 == keys[cur].0);
            lemma_resume_passes(keys, cur, end, Seq::empty(), Seq::empty(), 0, passed);
            let r = resume(keys, cur, end, Seq::empty(), Seq::empty(), 0, passed);
            assert(r == resume(keys, start, cur, runs, order, pos, tally));
            assert(r.cur > end || r.stage is Finished);
            let upto = if r.stage is Finished {
                keys.len() as int
            } else {
                r.start
            };
            assert forall|p: int|
                cur <= p && p + 1 < upto && (#[trigger] keys[p]).0 == keys[p + 1].0 implies keys[p].1
                == keys[p + 1].1 by {
                if p + 1 < end {
                    assert(run_within(keys, cur, end, found[0]));
                    assert(keys[p].1 == keys[cur].1);
                    assert(keys[p + 1].1 == keys[cur].1);
                } else if p + 1 == end {
                    assert(keys[p].0 == keys[cur].0);
                } else {
                    assert(linked_only(keys, end, upto));
                }
            }
        }
    }
}

/// No bucket with duplicates to find is passed over. When a step goes on
/// to a later bucket or finishes, the files it passes on the way hold no
/// two neighbours of one size that are different physical files; and the
/// bucket it stops at is a whole bucket of two or more runs, whose two runs
/// are to be compared (of two files the first kept, else the longer run),
/// or whose three or more runs are to be sample-hashed.
pub proof fn law_no_bucket_is_skipped(s: ResolverView, reply: ReplyView)
    requires
        well_formed(s),
    ensures
        ({
            let next = step_of(s, reply).0;
            next.cur > s.cur || next.stage is Finished ==> {
                &&& next.stage is Finished ==> linked_only(s.keys, s.cur, s.keys.len() as int)
                &&& !(next.stage is Finished) ==> {
                    &&& s.cur <= next.start
                    &&& linked_only(s.keys, s.cur, next.start)
                    &&& is_bucket(s.keys, next.start, next.cur)
                    &&& next.runs == runs_of(s.keys, next.start, next.cur)
                    &&& next.runs.len() >= 2
                    &&& next.runs.len() == 2 ==> next.stage == (StageView::Pair {
                        keep: pair_kept(next.runs, (next.cur - next.start) as nat),
                        absorb: pair_absorbed(next.runs, (next.cur - next.start) as nat),
                    })
                    &&& next.runs.len() > 2 ==> next.stage is Samples
                }
            }
        }),
{
    let settled = settle(s, reply);
    lemma_resume_passes(s.keys, s.start, s.cur, s.runs, settled.order, s.pos, settled.tally);
}

/// No stretch of ranked runs with a common sample hash is passed over.
/// When a step stays with the bucket at hand, it stops at a whole stretch
/// of two runs, which are to be compared, the first kept, or of three or
/// more, which are to be content-hashed; the ranked runs it passes on the
/// way each have a sample hash that no neighbour shares. When it leaves the
/// bucket, that holds of all ranked runs that were left.
pub proof fn law_no_stretch_is_skipped(s: ResolverView, reply: ReplyView)
    requires
        well_formed(s),
    ensures
        ({
            let order = settle(s, reply).order;
            let next = step_of(s, reply).0;
            &&& next.cur == s.cur && !(next.stage is Finished) ==> {
                &&& next.order == order
                &&& next.runs == s.runs
                &&& match next.stage {
                    StageView::Pair { keep, absorb } => {
                        &&& s.pos <= next.pos - 2
                        &&& singles(order, s.pos, next.pos - 2)
                        &&& bucket_end(order, next.pos - 2) == next.pos
                        &&& keep == s.runs[order[next.pos - 2].2 as int]
                        &&& absorb == s.runs[order[next.pos - 1].2 as int]
                    },
                    StageView::Digests { group } => {
                        &&& group.len() >= 3
                        &&& s.pos <= next.pos - group.len()
                        &&& singles(order, s.pos, next.pos - group.len())
                        &&& bucket_end(order, next.pos - group.len()) == next.pos
                        &&& group == group_at(s.runs, order, next.pos - group.len(), next.pos)
                    },
                    _ => false,
                }
            }
            &&& next.cur > s.cur || next.stage is Finished ==> singles(
                order,
                s.pos,
                order.len() as int,
            )
        }),
{
    let settled = settle(s, reply);
    lemma_resume_passes(s.keys, s.start, s.cur, s.runs, settled.order, s.pos, settled.tally);
}

/// Every merge updates the totals, and nothing else does. A step counts
/// one merged run for each merge it decides, each duplicate of those
/// merges as a merged file and as a link, and one file's size for each
/// merge as bytes saved. It counts one comparison if it was answered one,
/// and the sample or content hashes that it was answered, one for each file
/// asked.
pub proof fn law_step_totals_follow_merges(s: ResolverView, reply: ReplyView)
    requires
        well_formed(s),
    ensures
        ({
            let step = step_of(s, reply).1;
            let counted = merges_tally(step.merges, step.merges.len() as int);
            &&& step.tally.merges == step.merges.len()
            &&& step.tally.merged_files == counted.merged_files
            &&& step.tally.links == counted.links
            &&& step.tally.links == step.tally.merged_files
            &&& step.tally.saved_bytes == counted.saved_bytes
            &&& step.tally.comparisons == if s.stage is Pair {
                1nat
            } else {
                0nat
            }
            &&& step.tally.sample_hashes == if s.stage is Samples {
                s.runs.len()
            } else {
                0nat
            }
            &&& step.tally.content_hashes == match s.stage {
                StageView::Digests { group } => group.len(),
                _ => 0nat,
            }
            &&& step.tally.content_hash_bytes == match s.stage {
                StageView::Digests { group } => group.len() * (s.keys[s.start].0 as nat),
                _ => 0nat,
            }
        }),
{
    let settled = settle(s, reply);
    lemma_merges_leave_buckets(settled.merges, settled.merges.len() as int);
    lemma_resume_savings(s.keys, s.start, s.cur, s.runs, settled.order, s.pos, settled.tally);
}

/// The state that is reached when the replies are given one by one.
pub open spec fn after_replies(s: ResolverView, replies: Seq<ReplyView>) -> ResolverView
    decreases replies.len(),
{
    if replies.len() == 0 {
        s
    } else {
        after_replies(step_of(s, replies[0]).0, replies.drop_first())
    }
}

/// The state waits on an answer about both runs at once: on the comparison
/// of the one with the other, or on the content hashes of a group that
/// holds both.
pub open spec fn asked_together(t: ResolverView, x: Run, y: Run) -> bool {
    match t.stage {
        StageView::Pair { keep, absorb } => (keep == x && absorb == y) || (keep == y && absorb
            == x),
        StageView::Digests { group } => exists|i: int, j: int|
            0 <= i < group.len() && 0 <= j < group.len() && i != j && group[i] == x && group[j]
                == y,
        _ => false,
    }
}

/// Where two keys of an ascending sequence agree in their first component,
/// so does every key between them.
proof fn lemma_hash_between(order: Seq<Key>, l: int, m: int, j: int)
    requires
        forall|x: int, y: int| 0 <= x < y < order.len() ==> key_lt(order[x], order[y]),
        0 <= l <= m <= j < order.len(),
        order[l].0 == order[j].0,
    ensures
        order[m].0 == order[l].0,
{
    if l < m {
        assert(key_lt(order[l], order[m]));
    }
    if m < j {
        assert(key_lt(order[m], order[j]));
    }
}

/// Giving one reply and then more is giving them all.
proof fn lemma_after_first(t: ResolverView, replies: Seq<ReplyView>, k: int)
    requires
        0 <= k < replies.len(),
    ensures
        after_replies(t, replies.take(k + 1)) == after_replies(
            step_of(t, replies[0]).0,
            replies.drop_first().take(k),
        ),
{
    assert(replies.take(k + 1).drop_first() =~= replies.drop_first().take(k));
}

/// Two ranked runs with one sample hash that are still ahead are asked
/// about together after some of the replies, whatever the replies are.
proof fn lemma_stretch_is_reached(t: ResolverView, replies: Seq<ReplyView>, l: int, j: int)
    requires
        replies.len() >= 1,
        0 <= t.cur <= t.keys.len() <= usize::MAX,
        0 < t.cur < t.keys.len() ==> t.keys[t.cur - 1].0 != t.keys[t.cur].0,
        ({
            let order = settle(t, replies[0]).order;
            &&& forall|x: int, y: int| 0 <= x < y < order.len() ==> key_lt(order[x], order[y])
            &&& 0 <= t.pos <= l < j < order.len()
            &&& order[l].0 == order[j].0
            &&& replies.len() >= order.len() - t.pos
        }),
    ensures
        exists|k: int|
            1 <= k <= replies.len() && asked_together(
                after_replies(t, replies.take(k)),
                t.runs[settle(t, replies[0]).order[l].2 as int],
                t.runs[settle(t, replies[0]).order[j].2 as int],
            ),
    decreases settle(t, replies[0]).order.len() - t.pos,
{
    let settled = settle(t, replies[0]);
    let order = settled.order;
    let x = t.runs[order[l].2 as int];
    let y = t.runs[order[j].2 as int];
    lemma_resume_passes(t.keys, t.start, t.cur, t.runs, order, t.pos, settled.tally);
    let next = step_of(t, replies[0]).0;
    // Position l has a neighbour of its hash, so it is no single.
    lemma_hash_between(order, l, l + 1, j);
    lemma_bucket_end(order, l);
    lemma_bucket_end(order, l + 1);
    assert(bucket_end(order, l) > l + 1);
    assert(next.cur == t.cur && !(next.stage is Finished)) by {
        if next.cur > t.cur || next.stage is Finished {
            assert(singles(order, t.pos, order.len() as int));
            assert(bucket_end(order, l) == l + 1);
        }
    }
    let first = match next.stage {
        StageView::Digests { group } => next.pos - group.len(),
        _ => next.pos - 2,
    };
    assert(singles(order, t.pos, first));
    assert(first <= l) by {
        if l < first {
            assert(bucket_end(order, l) == l + 1);
        }
    }
    assert(after_replies(t, replies.take(1)) == next) by {
        lemma_after_first(t, replies, 0);
        assert(replies.drop_first().take(0) =~= Seq::<ReplyView>::empty());
    }
    if l < next.pos {
        // Both positions lie in the stretch that is asked about.
        lemma_bucket_end(order, first);
        assert forall|m: int| first <= m <= j implies (#[trigger] order[m]).0 == order[first].0 by {
            if m <= l {
                assert(order[m].0 == order[first].0);
            } else {
                lemma_hash_between(order, l, m, j);
            }
        }
        lemma_bucket_reaches(order, first, j);
        match next.stage {
            StageView::Pair { keep, absorb } => {
                assert(l == first && j == first + 1);
            },
            StageView::Digests { group } => {
                assert(group[l - first] == x);
                assert(group[j - first] == y);
            },
            _ => {},
        }
        assert(asked_together(after_replies(t, replies.take(1)), x, y));
    } else {
        let rest = replies.drop_first();
        assert(settle(next, rest[0]).order == order);
        lemma_stretch_is_reached(next, rest, l, j);
        let k = choose|k: int|
            1 <= k <= rest.len() && asked_together(after_replies(next, rest.take(k)), x, y);
        lemma_after_first(t, replies, k);
        assert(asked_together(after_replies(t, replies.take(k + 1)), x, y));
    }
}

/// Runs for which the same sample hash is reported are asked about
/// together after some of the replies.
proof fn lemma_equal_samples_are_asked_together(
    s: ResolverView,
    replies: Seq<ReplyView>,
    a: int,
    b: int,
)
    requires
        0 <= s.cur <= s.keys.len() <= usize::MAX,
        0 < s.cur < s.keys.len() ==> s.keys[s.cur - 1].0 != s.keys[s.cur].0,
        s.stage is Samples,
        s.pos == 0,
        s.runs.len() <= usize::MAX,
        replies.len() > s.runs.len(),
        0 <= a < s.runs.len(),
        0 <= b < s.runs.len(),
        a != b,
        samples_given(replies[0], s.runs.len())[a] is Some,
        samples_given(replies[0], s.runs.len())[a] == samples_given(replies[0], s.runs.len())[b],
    ensures
        exists|k: int|
            1 <= k <= replies.len() && asked_together(
                after_replies(s, replies.take(k)),
                s.runs[a],
                s.runs[b],
            ),
{
    let samples = samples_given(replies[0], s.runs.len());
    let order = ranked(s.runs, samples);
    lemma_arrangement_exists(sample_wants(s.runs, samples));
    law_equal_samples_rank_together(s.runs, samples, a, b);
    let (l, j) = choose|l: int, j: int|
        0 <= l < j < order.len() && bucket_end(order, l) > j && ((order[l].2 == a && order[j].2
            == b) || (order[l].2 == b && order[j].2 == a));
    lemma_bucket_end(order, l);
    assert(order[j].0 == order[l].0);
    lemma_ranking_is_short(s.runs, samples);
    lemma_stretch_is_reached(s, replies, l, j);
    let k = choose|k: int|
        1 <= k <= replies.len() && asked_together(
            after_replies(s, replies.take(k)),
            s.runs[order[l].2 as int],
            s.runs[order[j].2 as int],
        );
    assert(asked_together(after_replies(s, replies.take(k)), s.runs[a], s.runs[b]));
}

/// Runs of one bucket for which the same sample hash is reported are asked
/// about together in the end, whatever is answered in between: once the
/// sample hashes are given, some later state waits on the comparison of
/// the two runs, or on the content hashes of a group that holds both.
/// `replies` begins with the sample hashes and holds at least one reply
/// more for each run of the bucket.
pub proof fn law_equal_samples_are_asked_together(
    s: ResolverView,
    replies: Seq<ReplyView>,
    a: int,
    b: int,
)
    requires
        well_formed(s),
        s.stage is Samples,
        replies.len() > s.runs.len(),
        0 <= a < s.runs.len(),
        0 <= b < s.runs.len(),
        a != b,
        samples_given(replies[0], s.runs.len())[a] is Some,
        samples_given(replies[0], s.runs.len())[a] == samples_given(replies[0], s.runs.len())[b],
    ensures
        exists|k: int|
            1 <= k <= replies.len() && asked_together(
                after_replies(s, replies.take(k)),
                s.runs[a],
                s.runs[b],
            ),
{
    lemma_equal_samples_are_asked_together(s, replies, a, b);
}

/// A ranking holds no more keys than there are runs.
proof fn lemma_ranking_is_short(runs: Seq<Run>, samples: Seq<Option<u128>>)
    requires
        samples.len() == runs.len(),
        runs.len() <= usize::MAX,
    ensures
        ranked(runs, samples).len() <= runs.len(),
{
    let order = ranked(runs, samples);
    lemma_arrangement_exists(sample_wants(runs, samples));
    assert forall|x: int, y: int| 0 <= x < y < order.len() implies order[x].2 != order[y].2 by {
        assert(order.contains(order[x]));
        assert(order.contains(order[y]));
        assert(key_lt(order[x], order[y]));
    }
    assert forall|x: int| 0 <= x < order.len() implies (#[trigger] order[x]).2 < runs.len() by {
        assert(order.contains(order[x]));
    }
    lemma_tags_bound(order, runs.len() as int);
}

/// An ascending sequence whose tags are all below a bound holds no more
/// keys than the bound.
proof fn lemma_tags_bound(order: Seq<Key>, bound: int)
    requires
        bound >= 0,
        forall|x: int, y: int| 0 <= x < y < order.len() ==> order[x].2 != order[y].2,
        forall|x: int| 0 <= x < order.len() ==> (#[trigger] order[x]).2 < bound,
    ensures
        order.len() <= bound,
    decreases bound,
{
    if order.len() > 0 {
        if bound == 0 {
            assert(order[0].2 < 0);
        } else {
            // Take out the key with the largest tag, if it is there.
            let top = (bound - 1) as usize;
            if exists|x: int| 0 <= x < order.len() && order[x].2 == top {
                let x = choose|x: int| 0 <= x < order.len() && order[x].2 == top;
                let rest = order.remove(x);
                assert forall|p: int| 0 <= p < rest.len() implies (#[trigger] rest[p]).2 < bound
                    - 1 by {
                    if p < x {
                        assert(rest[p] == order[p]);
                    } else {
                        assert(rest[p] == order[p + 1]);
                    }
                }
                assert forall|p: int, q: int| 0 <= p < q < rest.len() implies rest[p].2
                    != rest[q].2 by {
                    let pp = if p < x {
                        p
                    } else {
                        p + 1
                    };
                    let qq = if q < x {
                        q
                    } else {
                        q + 1
                    };
                    assert(rest[p] == order[pp] && rest[q] == order[qq]);
                }
                lemma_tags_bound(rest, bound - 1);
            } else {
                assert forall|p: int| 0 <= p < order.len() implies (#[trigger] order[p]).2 < bound
                    - 1 by {
                    assert(order[p].2 != top);
                }
                lemma_tags_bound(order, bound - 1);
            }
        }
    }
}

/// The state has come to the bucket from `start` to `end` and waits on its
/// first answer there: on the comparison of its two runs, or on the sample
/// hashes of its three or more runs.
pub open spec fn arrived_at(t: ResolverView, start: int, end: int) -> bool {
    &&& t.start == start
    &&& t.cur == end
    &&& is_bucket(t.keys, start, end)
    &&& t.runs == runs_of(t.keys, start, end)
    &&& t.runs.len() >= 2
    &&& t.order.len() == 0
    &&& t.pos == 0
    &&& t.runs.len() == 2 ==> t.stage == (StageView::Pair {
        keep: pair_kept(t.runs, (end - start) as nat),
        absorb: pair_absorbed(t.runs, (end - start) as nat),
    })
    &&& t.runs.len() > 2 ==> t.stage is Samples
}

/// In an ascending catalog every file of a bucket's size lies in the
/// bucket.
proof fn lemma_bucket_holds_its_size(keys: Seq<Key>, start: int, end: int, x: int)
    requires
        ascending(keys),
        is_bucket(keys, start, end),
        0 <= x < keys.len(),
        keys[x].0 == keys[start].0,
    ensures
        start <= x < end,
{
    if x < start {
        if x < start - 1 {
            assert(key_lt(keys[x], keys[start - 1]));
        }
        assert(key_lt(keys[start - 1], keys[start]));
    }
    if x >= end {
        assert(keys[end - 1].0 == keys[start].0);
        assert(key_lt(keys[end - 1], keys[end]));
        if x > end {
            assert(key_lt(keys[end], keys[x]));
        }
    }
}

/// Between two files of one size and different identities stand two
/// neighbours of that size and different identities.
proof fn lemma_neighbours_differ(keys: Seq<Key>, p: int, q: int) -> (m: int)
    requires
        ascending(keys),
        0 <= p < q < keys.len(),
        keys[p].0 == keys[q].0,
        keys[p].1 != keys[q].1,
    ensures
        p <= m < q,
        keys[m].0 == keys[p].0,
        keys[m + 1].0 == keys[p].0,
        keys[m].1 != keys[m + 1].1,
    decreases q - p,
{
    assert(key_lt(keys[p], keys[p + 1]));
    if p + 1 < q {
        assert(key_lt(keys[p + 1], keys[q]));
    }
    if keys[p].1 != keys[p + 1].1 {
        p
    } else {
        lemma_neighbours_differ(keys, p + 1, q)
    }
}

/// A bucket that is still ahead and holds two neighbours of different
/// identities is arrived at after some of the replies, whatever they are.
proof fn lemma_bucket_is_reached(t: ResolverView, replies: Seq<ReplyView>, m: int)
    requires
        replies.len() >= 1,
        ascending(t.keys),
        0 <= t.cur <= t.keys.len() <= usize::MAX,
        0 < t.cur < t.keys.len() ==> t.keys[t.cur - 1].0 != t.keys[t.cur].0,
        t.cur <= m,
        m + 1 < t.keys.len(),
        t.keys[m].0 == t.keys[m + 1].0,
        t.keys[m].1 != t.keys[m + 1].1,
        0 <= t.pos <= settle(t, replies[0]).order.len(),
        replies.len() > 2 * (t.keys.len() - t.cur) + settle(t, replies[0]).order.len() - t.pos,
    ensures
        exists|k: int, start: int, end: int|
            1 <= k <= 2 * (t.keys.len() - t.cur) + settle(t, replies[0]).order.len() - t.pos + 1
                && k <= replies.len() && start <= m && m + 1 < end && arrived_at(
                after_replies(t, replies.take(k)),
                start,
                end,
            ),
    decreases 2 * (t.keys.len() - t.cur) + settle(t, replies[0]).order.len() - t.pos,
{
    let keys = t.keys;
    let settled = settle(t, replies[0]);
    let order = settled.order;
    lemma_resume_passes(keys, t.start, t.cur, t.runs, order, t.pos, settled.tally);
    let next = step_of(t, replies[0]).0;
    assert(after_replies(t, replies.take(1)) == next) by {
        lemma_after_first(t, replies, 0);
        assert(replies.drop_first().take(0) =~= Seq::<ReplyView>::empty());
    }
    assert(!(next.stage is Finished)) by {
        if next.stage is Finished {
            assert(linked_only(keys, t.cur, keys.len() as int));
        }
    }
    let rest = replies.drop_first();
    if next.cur > t.cur {
        assert(linked_only(keys, t.cur, next.start));
        assert(next.start <= m) by {
            if m + 1 < next.start {
                assert(keys[m].1 == keys[m + 1].1);
            }
        }
        if m < next.cur {
            assert(keys[m].0 == keys[next.start].0);
            assert(arrived_at(next, next.start, next.cur));
        } else {
            lemma_runs_tile(keys, next.start, next.cur);
            if next.stage is Samples {
                lemma_ranking_is_short(next.runs, samples_given(rest[0], next.runs.len()));
            }
            lemma_bucket_is_reached(next, rest, m);
            let (k, start, end) = choose|k: int, start: int, end: int|
                1 <= k <= 2 * (keys.len() - next.cur) + settle(next, rest[0]).order.len()
                    - next.pos + 1 && k <= rest.len() && start <= m && m + 1 < end && arrived_at(
                    after_replies(next, rest.take(k)),
                    start,
                    end,
                );
            lemma_after_first(t, replies, k);
            assert(arrived_at(after_replies(t, replies.take(k + 1)), start, end));
        }
    } else {
        assert(settle(next, rest[0]).order == order);
        lemma_bucket_is_reached(next, rest, m);
        let (k, start, end) = choose|k: int, start: int, end: int|
            1 <= k <= 2 * (keys.len() - next.cur) + settle(next, rest[0]).order.len() - next.pos
                + 1 && k <= rest.len() && start <= m && m + 1 < end && arrived_at(
                after_replies(next, rest.take(k)),
                start,
                end,
            );
        lemma_after_first(t, replies, k);
        assert(arrived_at(after_replies(t, replies.take(k + 1)), start, end));
    }
}

/// No two files of one size and different identities are passed by: from
/// its start on the catalog, whatever it is answered, the resolver arrives
/// at the bucket that holds both, to compare its two runs or to
/// sample-hash its three or more, and that within two steps for each file
/// of the catalog and one more. `replies` holds that many replies.
pub proof fn law_bucket_is_reached(
    keys: Seq<Key>,
    prefix_len: u64,
    link: bool,
    replies: Seq<ReplyView>,
    p: int,
    q: int,
)
    requires
        ascending(keys),
        keys.len() <= usize::MAX,
        0 <= p < q < keys.len(),
        keys[p].0 == keys[q].0,
        keys[p].1 != keys[q].1,
        replies.len() > 2 * keys.len(),
    ensures
        exists|k: int, start: int, end: int|
            1 <= k <= 2 * keys.len() + 1 && start <= p && q < end && arrived_at(
                after_replies(initial(keys, prefix_len, link), replies.take(k)),
                start,
                end,
            ),
{
    let m = lemma_neighbours_differ(keys, p, q);
    let s = initial(keys, prefix_len, link);
    lemma_bucket_is_reached(s, replies, m);
    let (k, start, end) = choose|k: int, start: int, end: int|
        1 <= k <= 2 * (keys.len() - s.cur) + settle(s, replies[0]).order.len() - s.pos + 1 && k
            <= replies.len() && start <= m && m + 1 < end && arrived_at(
            after_replies(s, replies.take(k)),
            start,
            end,
        );
    let t = after_replies(s, replies.take(k));
    lemma_after_keeps_keys(s, replies.take(k));
    assert(keys[m].0 == keys[start].0);
    lemma_bucket_holds_its_size(keys, start, end, p);
    lemma_bucket_holds_its_size(keys, start, end, q);
}

/// The catalog stays as it is through all steps.
proof fn lemma_after_keeps_keys(s: ResolverView, replies: Seq<ReplyView>)
    ensures
        after_replies(s, replies).keys == s.keys,
    decreases replies.len(),
{
    if replies.len() > 0 {
        lemma_after_keeps_keys(step_of(s, replies[0]).0, replies.drop_first());
    }
}

/// The place among `runs` of the run in which catalog position `p` lies.
pub open spec fn run_index(runs: Seq<Run>, p: int) -> int {
    choose|a: int|
        0 <= a < runs.len() && (#[trigger] runs[a]).first <= p < runs[a].first + runs[a].len
}

/// The reply reports one sample hash for the runs of positions `p` and `q`.
pub open spec fn same_samples(reply: ReplyView, runs: Seq<Run>, p: int, q: int) -> bool {
    let samples = samples_given(reply, runs.len());
    samples[run_index(runs, p)] is Some && samples[run_index(runs, p)] == samples[run_index(
        runs,
        q,
    )]
}

/// Every position of a tiled range lies in one of the runs.
proof fn lemma_covering(keys: Seq<Key>, start: int, end: int, runs: Seq<Run>, p: int, k: int)
    requires
        tiles(keys, start, end, runs),
        start <= p < end,
        0 <= k < runs.len(),
        runs[k].first <= p,
    ensures
        0 <= run_index(runs, p) < runs.len(),
        runs[run_index(runs, p)].first <= p < runs[run_index(runs, p)].first + runs[run_index(
            runs,
            p,
        )].len,
    decreases runs.len() - k,
{
    if p >= runs[k].first + runs[k].len {
        if k == runs.len() - 1 {
            assert(runs.last() == runs[k]);
        } else {
            assert(runs[k].first + runs[k].len == runs[k + 1].first);
            lemma_covering(keys, start, end, runs, p, k + 1);
        }
    }
}

/// Giving some replies and then more is giving them all.
proof fn lemma_after_both(s: ResolverView, first: Seq<ReplyView>, then: Seq<ReplyView>)
    ensures
        after_replies(s, first + then) == after_replies(after_replies(s, first), then),
    decreases first.len(),
{
    if first.len() == 0 {
        assert(first + then =~= then);
    } else {
        assert((first + then).drop_first() =~= first.drop_first() + then);
        lemma_after_both(step_of(s, first[0]).0, first.drop_first(), then);
    }
}

/// Two files of one size and different identities for whose runs the same
/// sample hash is reported are asked about together, from the start on the
/// catalog and whatever else is answered: the resolver comes to wait on
/// the comparison of their two runs, or on the content hashes of a group
/// that holds both. If the comparison then says that they are the same,
/// or the content hashes reported for them are the same, they are merged,
/// as the laws on a confirmed pair and on equal content hashes say.
///
/// `replies` holds more than three replies for each file of the catalog
/// and one more. The sample hashes need only agree where they are given:
/// in the reply to the request that asks for those of the files' bucket.
pub proof fn law_equal_files_are_asked_together(
    keys: Seq<Key>,
    prefix_len: u64,
    link: bool,
    replies: Seq<ReplyView>,
    p: int,
    q: int,
)
    requires
        ascending(keys),
        keys.len() <= usize::MAX,
        0 <= p < q < keys.len(),
        keys[p].0 == keys[q].0,
        keys[p].1 != keys[q].1,
        replies.len() > 3 * keys.len() + 1,
        forall|k: int, start: int, end: int|
            1 <= k < replies.len() && start <= p && q < end && #[trigger] arrived_at(
                after_replies(initial(keys, prefix_len, link), replies.take(k)),
                start,
                end,
            ) && after_replies(initial(keys, prefix_len, link), replies.take(k)).stage is Samples
                ==> same_samples(replies[k], runs_of(keys, start, end), p, q),
    ensures
        exists|k: int, start: int, end: int|
            1 <= k <= replies.len() && start <= p && q < end && is_bucket(keys, start, end)
                && asked_together(
                after_replies(initial(keys, prefix_len, link), replies.take(k)),
                runs_of(keys, start, end)[run_index(runs_of(keys, start, end), p)],
                runs_of(keys, start, end)[run_index(runs_of(keys, start, end), q)],
            ),
{
    let s = initial(keys, prefix_len, link);
    law_bucket_is_reached(keys, prefix_len, link, replies, p, q);
    let (k, start, end) = choose|k: int, start: int, end: int|
        1 <= k <= 2 * keys.len() + 1 && start <= p && q < end && arrived_at(
            after_replies(s, replies.take(k)),
            start,
            end,
        );
    let t = after_replies(s, replies.take(k));
    lemma_after_keeps_keys(s, replies.take(k));
    let runs = runs_of(keys, start, end);
    lemma_runs_differ(keys, start, end, p, q);
    let a = run_index(runs, p);
    let b = run_index(runs, q);
    if runs.len() == 2 {
        assert(asked_together(t, runs[a], runs[b]));
    } else {
        let rest = replies.skip(k);
        assert(rest[0] == replies[k]);
        assert(same_samples(replies[k], runs, p, q));
        lemma_asked_from_bucket(t, start, end, rest, a, b);
        let more = choose|more: int|
            1 <= more <= rest.len() && asked_together(
                after_replies(t, rest.take(more)),
                runs[a],
                runs[b],
            );
        assert(replies.take(k + more) =~= replies.take(k) + rest.take(more));
        lemma_after_both(s, replies.take(k), rest.take(more));
    }
}

/// Two positions of a bucket with different tokens lie in different runs.
proof fn lemma_runs_differ(keys: Seq<Key>, start: int, end: int, p: int, q: int)
    requires
        0 <= start <= p < end <= keys.len() <= usize::MAX,
        start <= q < end,
        keys[p].1 != keys[q].1,
    ensures
        ({
            let runs = runs_of(keys, start, end);
            &&& runs.len() <= end - start
            &&& 0 <= run_index(runs, p) < runs.len()
            &&& 0 <= run_index(runs, q) < runs.len()
            &&& run_index(runs, p) != run_index(runs, q)
        }),
{
    let runs = runs_of(keys, start, end);
    lemma_runs_tile(keys, start, end);
    lemma_covering(keys, start, end, runs, p, 0);
    lemma_covering(keys, start, end, runs, q, 0);
    let a = run_index(runs, p);
    let b = run_index(runs, q);
    assert(run_within(keys, start, end, runs[a]));
    assert(run_within(keys, start, end, runs[b]));
    assert(keys[p].1 == keys[runs[a].first as int].1);
    assert(keys[q].1 == keys[runs[b].first as int].1);
}

/// From the arrival at a bucket of three or more runs on, runs for which
/// the same sample hash is reported are asked about together.
proof fn lemma_asked_from_bucket(
    t: ResolverView,
    start: int,
    end: int,
    rest: Seq<ReplyView>,
    a: int,
    b: int,
)
    requires
        t.keys.len() <= usize::MAX,
        arrived_at(t, start, end),
        t.stage is Samples,
        t.runs.len() <= end - start,
        rest.len() > t.keys.len(),
        0 <= a < t.runs.len(),
        0 <= b < t.runs.len(),
        a != b,
        samples_given(rest[0], t.runs.len())[a] is Some,
        samples_given(rest[0], t.runs.len())[a] == samples_given(rest[0], t.runs.len())[b],
    ensures
        exists|more: int|
            1 <= more <= rest.len() && asked_together(
                after_replies(t, rest.take(more)),
                t.runs[a],
                t.runs[b],
            ),
{
    assert(t.keys[end - 1].0 == t.keys[start].0);
    lemma_equal_samples_are_asked_together(t, rest, a, b);
}

/// Run `run` ends up as part of run `into`: it is that run, or one of the
/// merges absorbs it into that run.
pub open spec fn joins(merges: Seq<MergePlan>, keys: Seq<Key>, into: Run, run: Run) -> bool {
    run == into || exists|i: int|
        0 <= i < merges.len() && #[trigger] merges[i] == merge_plan(keys, into, run)
}

/// The reply confirms that the two runs asked about together are the same:
/// it says so of the pair, or it reports one content hash for both.
pub open spec fn confirms(t: ResolverView, reply: ReplyView, x: Run, y: Run) -> bool {
    match t.stage {
        StageView::Pair { keep, absorb } => reply == ReplyView::Compared(true),
        StageView::Digests { group } => exists|i: int, j: int|
            0 <= i < group.len() && 0 <= j < group.len() && i != j && group[i] == x && group[j]
                == y && digests_given(reply, group.len())[i] is Some && digests_given(
                reply,
                group.len(),
            )[i] == digests_given(reply, group.len())[j],
        _ => false,
    }
}

/// Two runs that are asked about together and confirmed to be the same
/// are merged into one run by the step that takes the reply: both end up
/// as part of one run of the bucket, which is one of the two or, among
/// three or more with one content hash, the first of them.
pub proof fn law_asked_together_are_merged(t: ResolverView, reply: ReplyView, x: Run, y: Run)
    requires
        asked_together(t, x, y),
        confirms(t, reply, x, y),
        t.stage matches StageView::Digests { group } ==> group.len() <= usize::MAX,
    ensures
        exists|into: Run|
            joins(step_of(t, reply).1.merges, t.keys, into, x) && joins(
                step_of(t, reply).1.merges,
                t.keys,
                into,
                y,
            ),
{
    let merges = step_of(t, reply).1.merges;
    match t.stage {
        StageView::Pair { keep, absorb } => {
            assert(merges[0] == merge_plan(t.keys, keep, absorb));
            assert(joins(merges, t.keys, keep, x) && joins(merges, t.keys, keep, y));
        },
        StageView::Digests { group } => {
            let digests = digests_given(reply, group.len());
            let (i, j) = choose|i: int, j: int|
                0 <= i < group.len() && 0 <= j < group.len() && i != j && group[i] == x
                    && group[j] == y && digests[i] is Some && digests[i] == digests[j];
            let low = if i < j {
                i
            } else {
                j
            };
            let high = if i < j {
                j
            } else {
                i
            };
            law_equal_digests_are_merged(t.keys, group, digests, low, high);
            let (m, first) = choose|m: int, first: int|
                0 <= m < merges.len() && 0 <= first <= low && digests[first] == digests[high]
                    && merges[m] == merge_plan(t.keys, group[first], group[high]) && forall|
                    u: int,
                |
                    0 <= u < group.len() && #[trigger] digests[u] == digests[high] ==> first <= u;
            let into = group[first];
            assert(joins(merges, t.keys, into, group[high]));
            if first < low {
                law_equal_digests_are_merged(t.keys, group, digests, first, low);
                let (n, again) = choose|n: int, again: int|
                    0 <= n < merges.len() && 0 <= again <= first && digests[again] == digests[low]
                        && merges[n] == merge_plan(t.keys, group[again], group[low]) && forall|
                        u: int,
                    |
                        0 <= u < group.len() && #[trigger] digests[u] == digests[low] ==> again
                            <= u;
                assert(digests[again] == digests[high]);
                assert(again == first);
                assert(joins(merges, t.keys, into, group[low]));
            }
            assert(joins(merges, t.keys, into, x) && joins(merges, t.keys, into, y));
        },
        _ => {},
    }
}

} // verus!
