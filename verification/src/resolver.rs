//! The tiered duplicate resolver. It walks the catalog bucket by bucket and
//! decides which runs are duplicates of which, reading no file itself: each
//! step ends in a request (compare two files, sample-hash some, content-hash
//! some) that the caller answers in the next step.

use vstd::prelude::*;
use crate::compare::{sample_len, sample_length, ContentHash};
use crate::group::{
    bucket_end, find_bucket_end, lemma_bucket_end, lemma_tiles_separate, one_size, run_within,
    runs_of, separate_runs, split_runs, Run,
};
use crate::merge::{
    absorbed, direction, first_file, kept, merge_plan, merge_runs, merges_tally, plans,
    representative, run_in, tally_merges, Merge, MergePlan,
};
use crate::order::{
    arranged, arrangement, ascending, distinct_tags, key_lt, lemma_arranged, Key,
};
use crate::rank::{
    content_merges, digest_wants, merge_by_digest, rank_runs, ranked, sample_wants,
};
use crate::record::{catalog, catalog_of, describes, FileRecord};
use crate::stats::{Statistics, Tally};

verus! {

/// What the resolver asks of its caller.
#[derive(Debug)]
pub enum Request {
    /// Compare the bytes of two files.
    Compare { left: usize, right: usize },
    /// Compute the sample hash over the first `length` bytes of each file.
    Sample { files: Vec<usize>, length: u64 },
    /// Compute the content hash of each file.
    Digest { files: Vec<usize> },
    /// Nothing: every bucket is resolved.
    Finished,
}

/// A request as plain values.
pub enum RequestView {
    Compare { left: usize, right: usize },
    Sample { files: Seq<usize>, length: u64 },
    Digest { files: Seq<usize> },
    Finished,
}

impl View for Request {
    type V = RequestView;

    open spec fn view(&self) -> RequestView {
        match self {
            Request::Compare { left, right } => RequestView::Compare { left: *left, right: *right },
            Request::Sample { files, length } => RequestView::Sample {
                files: files@,
                length: *length,
            },
            Request::Digest { files } => RequestView::Digest { files: files@ },
            Request::Finished => RequestView::Finished,
        }
    }
}

/// The caller's answer to the request of the step before.
#[derive(Debug)]
pub enum Reply {
    /// No answer; the one to give where nothing was asked.
    Nothing,
    /// Whether the two files hold the same bytes. A failure to read either
    /// is answered `false`.
    Compared(bool),
    /// The sample hash of each file asked for, in the order asked; `None`
    /// where it could not be computed.
    Sampled(Vec<Option<u128>>),
    /// The content hash of each file asked for, in the order asked; `None`
    /// where it could not be computed.
    Digested(Vec<Option<ContentHash>>),
}

/// A reply as plain values.
pub enum ReplyView {
    Nothing,
    Compared(bool),
    Sampled(Seq<Option<u128>>),
    Digested(Seq<Option<ContentHash>>),
}

impl View for Reply {
    type V = ReplyView;

    open spec fn view(&self) -> ReplyView {
        match self {
            Reply::Nothing => ReplyView::Nothing,
            Reply::Compared(same) => ReplyView::Compared(*same),
            Reply::Sampled(hashes) => ReplyView::Sampled(hashes@),
            Reply::Digested(hashes) => ReplyView::Digested(hashes@),
        }
    }
}

/// What one step yields.
#[derive(Debug)]
pub struct Step {
    /// The merges that the reply settled.
    pub merges: Vec<Merge>,
    /// Whether the caller is to carry the merges out, replacing each
    /// duplicate by a hard link to the survivor, or only to report them.
    pub link: bool,
    /// What the step adds to the session's counters.
    pub tally: Statistics,
    /// What the caller is to answer in the next step.
    pub request: Request,
}

/// A step as plain values.
pub struct StepView {
    pub merges: Seq<MergePlan>,
    pub link: bool,
    pub tally: Tally,
    pub request: RequestView,
}

impl View for Step {
    type V = StepView;

    open spec fn view(&self) -> StepView {
        StepView {
            merges: plans(self.merges@),
            link: self.link,
            tally: self.tally@,
            request: self.request@,
        }
    }
}

enum Stage {
    Idle,
    Pair { keep: Run, absorb: Run },
    Samples,
    Digests { group: Vec<Run> },
    Finished,
}

/// What the resolver is waiting for.
pub enum StageView {
    /// Nothing yet: no step was taken.
    Idle,
    /// The comparison of the first files of two runs; if they are the same,
    /// `absorb` is merged into `keep`.
    Pair { keep: Run, absorb: Run },
    /// The sample hashes of the runs of the bucket at hand.
    Samples,
    /// The content hashes of the runs of `group`.
    Digests { group: Seq<Run> },
    /// Nothing more.
    Finished,
}

/// The resolver's state as plain values.
pub struct ResolverView {
    /// The catalog.
    pub keys: Seq<Key>,
    /// The number of leading bytes that a sample hash covers at most.
    pub prefix_len: u64,
    /// Whether duplicates are to be replaced by hard links.
    pub link_duplicates: bool,
    /// Where the bucket at hand begins.
    pub start: int,
    /// Where it ends, and the catalog not yet looked at begins.
    pub cur: int,
    /// The runs of the bucket at hand.
    pub runs: Seq<Run>,
    /// Their ranking by sample hash, once that is known.
    pub order: Seq<Key>,
    /// How far into the ranking the runs are dealt with.
    pub pos: int,
    pub stage: StageView,
}

/// The resolver.
pub struct Resolver {
    keys: Vec<Key>,
    prefix_len: u64,
    link_duplicates: bool,
    start: usize,
    cur: usize,
    runs: Vec<Run>,
    order: Vec<Key>,
    pos: usize,
    stage: Stage,
}

impl View for Stage {
    type V = StageView;

    closed spec fn view(&self) -> StageView {
        match self {
            Stage::Idle => StageView::Idle,
            Stage::Pair { keep, absorb } => StageView::Pair { keep: *keep, absorb: *absorb },
            Stage::Samples => StageView::Samples,
            Stage::Digests { group } => StageView::Digests { group: group@ },
            Stage::Finished => StageView::Finished,
        }
    }
}

impl View for Resolver {
    type V = ResolverView;

    closed spec fn view(&self) -> ResolverView {
        ResolverView {
            keys: self.keys@,
            prefix_len: self.prefix_len,
            link_duplicates: self.link_duplicates,
            start: self.start as int,
            cur: self.cur as int,
            runs: self.runs@,
            order: self.order@,
            pos: self.pos as int,
            stage: self.stage@,
        }
    }
}

/// The first files of `runs`.
pub open spec fn representatives(keys: Seq<Key>, runs: Seq<Run>) -> Seq<usize> {
    Seq::new(runs.len(), |r: int| representative(keys, runs[r]))
}

/// The state in which a resolver starts on a catalog.
pub open spec fn initial(keys: Seq<Key>, prefix_len: u64, link_duplicates: bool) -> ResolverView {
    ResolverView {
        keys,
        prefix_len,
        link_duplicates,
        start: 0,
        cur: 0,
        runs: Seq::empty(),
        order: Seq::empty(),
        pos: 0,
        stage: StageView::Idle,
    }
}

/// The request that a state waits on.
pub open spec fn request_of(s: ResolverView) -> RequestView {
    match s.stage {
        StageView::Pair { keep, absorb } => RequestView::Compare {
            left: representative(s.keys, keep),
            right: representative(s.keys, absorb),
        },
        StageView::Samples => RequestView::Sample {
            files: representatives(s.keys, s.runs),
            length: sample_length(s.keys[s.start].0 as u64, s.prefix_len),
        },
        StageView::Digests { group } => RequestView::Digest { files: representatives(s.keys, group) },
        _ => RequestView::Finished,
    }
}

/// The sample hashes that a reply gives for `n` runs. A reply of another
/// kind, or for another number of files, gives none.
pub open spec fn samples_given(reply: ReplyView, n: nat) -> Seq<Option<u128>> {
    match reply {
        ReplyView::Sampled(hashes) => if hashes.len() == n {
            hashes
        } else {
            Seq::new(n, |i: int| None)
        },
        _ => Seq::new(n, |i: int| None),
    }
}

/// The content hashes that a reply gives for `n` runs. A reply of another
/// kind, or for another number of files, gives none.
pub open spec fn digests_given(reply: ReplyView, n: nat) -> Seq<Option<ContentHash>> {
    match reply {
        ReplyView::Digested(hashes) => if hashes.len() == n {
            hashes
        } else {
            Seq::new(n, |i: int| None)
        },
        _ => Seq::new(n, |i: int| None),
    }
}

/// What a reply settles.
pub struct Settled {
    /// The merges decided.
    pub merges: Seq<MergePlan>,
    /// The work that was asked for, and what the merges add.
    pub tally: Tally,
    /// The ranking of the runs at hand from here on.
    pub order: Seq<Key>,
}

/// Settles the request that state `s` waits on with `reply`. Only the
/// reply `Compared(true)` confirms a pair; sample and content hashes count
/// only if the reply holds one entry for each file asked for.
pub open spec fn settle(s: ResolverView, reply: ReplyView) -> Settled {
    match s.stage {
        StageView::Pair { keep, absorb } => {
            let merges = if reply == ReplyView::Compared(true) {
                seq![merge_plan(s.keys, keep, absorb)]
            } else {
                Seq::empty()
            };
            Settled {
                merges,
                tally: Tally { comparisons: 1, ..merges_tally(merges, merges.len() as int) },
                order: s.order,
            }
        },
        StageView::Samples => Settled {
            merges: Seq::empty(),
            tally: Tally { sample_hashes: s.runs.len(), ..Tally::zero() },
            order: ranked(s.runs, samples_given(reply, s.runs.len())),
        },
        StageView::Digests { group } => {
            let merges = content_merges(s.keys, group, digests_given(reply, group.len()));
            Settled {
                merges,
                tally: Tally {
                    content_hashes: group.len(),
                    content_hash_bytes: group.len() * (s.keys[s.start].0 as nat),
                    ..merges_tally(merges, merges.len() as int)
                },
                order: s.order,
            }
        },
        _ => Settled { merges: Seq::empty(), tally: Tally::zero(), order: s.order },
    }
}

/// Where the resolver stands once it has gone on to its next request.
pub struct Resumed {
    pub start: int,
    pub cur: int,
    pub runs: Seq<Run>,
    pub order: Seq<Key>,
    pub pos: int,
    pub stage: StageView,
    pub tally: Tally,
}

/// The runs that the ranking names from position `pos` up to `end`.
pub open spec fn group_at(runs: Seq<Run>, order: Seq<Key>, pos: int, end: int) -> Seq<Run> {
    Seq::new((end - pos) as nat, |q: int| runs[order[pos + q].2 as int])
}

/// Of the two runs that make up a bucket of `files` files, the one to keep
/// if they are found the same. In a bucket of two files that is the first,
/// so that the second becomes a link to the first; otherwise the longer
/// run, and the second if they are equally long.
pub open spec fn pair_kept(found: Seq<Run>, files: nat) -> Run {
    if files == 2 {
        found[0]
    } else {
        kept(found[0], found[1])
    }
}

/// Of the two runs that make up a bucket of `files` files, the one to
/// absorb if they are found the same: the other one.
pub open spec fn pair_absorbed(found: Seq<Run>, files: nat) -> Run {
    if files == 2 {
        found[1]
    } else {
        absorbed(found[0], found[1])
    }
}

/// Goes on from a settled state to the next request.
///
/// While ranked runs are left, the next stretch of runs with one sample
/// hash is taken: a single run is passed over, two are to be compared, the
/// first kept if they are the same; three or more are to be content-hashed.
/// When none is left, the next bucket of the catalog is taken: a single
/// file is passed over; files that are all one run are counted as linked
/// already; two runs are to be compared, of two files the first kept, else
/// the longer run; three or more runs are to be sample-hashed. When the
/// catalog is used up, the resolver has finished.
pub open spec fn resume(
    keys: Seq<Key>,
    start: int,
    cur: int,
    runs: Seq<Run>,
    order: Seq<Key>,
    pos: int,
    tally: Tally,
) -> Resumed
    decreases keys.len() - cur, order.len() - pos,
{
    let finished = Resumed { start, cur, runs, order, pos, stage: StageView::Finished, tally };
    if 0 <= pos < order.len() {
        let end = bucket_end(order, pos);
        if pos < end <= order.len() {
            if end - pos == 1 {
                resume(keys, start, cur, runs, order, end, tally)
            } else if end - pos == 2 {
                Resumed {
                    start,
                    cur,
                    runs,
                    order,
                    pos: end,
                    stage: StageView::Pair {
                        keep: runs[order[pos].2 as int],
                        absorb: runs[order[pos + 1].2 as int],
                    },
                    tally,
                }
            } else {
                Resumed {
                    start,
                    cur,
                    runs,
                    order,
                    pos: end,
                    stage: StageView::Digests { group: group_at(runs, order, pos, end) },
                    tally,
                }
            }
        } else {
            finished
        }
    } else if 0 <= cur < keys.len() {
        let end = bucket_end(keys, cur);
        if cur < end <= keys.len() {
            let found = runs_of(keys, cur, end);
            let files = (end - cur) as nat;
            if files == 1 {
                resume(keys, cur, end, Seq::empty(), Seq::empty(), 0, tally)
            } else if found.len() == 1 {
                resume(
                    keys,
                    cur,
                    end,
                    Seq::empty(),
                    Seq::empty(),
                    0,
                    tally.with_linked_bucket(files, keys[cur].0 as nat),
                )
            } else if found.len() == 2 {
                Resumed {
                    start: cur,
                    cur: end,
                    runs: found,
                    order: Seq::empty(),
                    pos: 0,
                    stage: StageView::Pair {
                        keep: pair_kept(found, files),
                        absorb: pair_absorbed(found, files),
                    },
                    tally: tally.with_bucket(files),
                }
            } else {
                Resumed {
                    start: cur,
                    cur: end,
                    runs: found,
                    order: Seq::empty(),
                    pos: 0,
                    stage: StageView::Samples,
                    tally: tally.with_bucket(files),
                }
            }
        } else {
            finished
        }
    } else {
        finished
    }
}

/// One step of the resolver: the reply settles the request that the state
/// waits on, then the resolver goes on to its next request.
pub open spec fn step_of(s: ResolverView, reply: ReplyView) -> (ResolverView, StepView) {
    let settled = settle(s, reply);
    let r = resume(s.keys, s.start, s.cur, s.runs, settled.order, s.pos, settled.tally);
    let next = ResolverView {
        keys: s.keys,
        prefix_len: s.prefix_len,
        link_duplicates: s.link_duplicates,
        start: r.start,
        cur: r.cur,
        runs: r.runs,
        order: r.order,
        pos: r.pos,
        stage: r.stage,
    };
    (
        next,
        StepView {
            merges: settled.merges,
            link: s.link_duplicates,
            tally: r.tally,
            request: request_of(next),
        },
    )
}

/// The sizes in the catalog are sizes of files.
pub open spec fn sizes_fit(keys: Seq<Key>) -> bool {
    forall|p: int| 0 <= p < keys.len() ==> (#[trigger] keys[p]).0 <= u64::MAX
}

/// The states that a resolver can be in.
pub open spec fn well_formed(s: ResolverView) -> bool {
    &&& ascending(s.keys)
    &&& sizes_fit(s.keys)
    &&& s.keys.len() <= usize::MAX
    &&& 0 <= s.start <= s.cur <= s.keys.len()
    &&& 0 < s.cur < s.keys.len() ==> s.keys[s.cur - 1].0 != s.keys[s.cur].0
    &&& 0 <= s.pos <= s.order.len()
    &&& 0 < s.pos < s.order.len() ==> s.order[s.pos - 1].0 != s.order[s.pos].0
    &&& ascending(s.order)
    &&& distinct_tags(s.order)
    &&& forall|j: int| 0 <= j < s.order.len() ==> (#[trigger] s.order[j]).2 < s.runs.len()
    &&& forall|j: int|
        0 <= j < s.order.len() ==> (#[trigger] s.order[j]).1 == usize::MAX - s.runs[s.order[j].2 as int].len
    &&& one_size(s.keys, s.start, s.cur)
    &&& s.runs.len() <= usize::MAX
    &&& separate_runs(s.keys, s.start, s.cur, s.runs)
    &&& match s.stage {
        StageView::Pair { keep, absorb } => {
            &&& run_within(s.keys, s.start, s.cur, keep)
            &&& run_within(s.keys, s.start, s.cur, absorb)
            &&& s.keys[keep.first as int].1 != s.keys[absorb.first as int].1
            &&& keep.len >= absorb.len
        },
        StageView::Samples => s.start < s.cur && s.pos == 0 && s.order.len() == 0,
        StageView::Digests { group } => {
            &&& s.start < s.cur
            &&& group.len() <= usize::MAX
            &&& separate_runs(s.keys, s.start, s.cur, group)
            &&& forall|a: int, b: int|
                0 <= a < b < group.len() ==> (#[trigger] group[a]).len >= (#[trigger] group[b]).len
        },
        _ => true,
    }
}

/// Where no entry is wanted, nothing is arranged.
proof fn lemma_nothing_arranged(wanted: Seq<Option<(u128, u128)>>)
    requires
        forall|i: int| 0 <= i < wanted.len() ==> (#[trigger] wanted[i]) is None,
    ensures
        arranged(wanted) == Seq::<Key>::empty(),
{
    let none = Seq::<Key>::empty();
    assert(arrangement(wanted, none));
    lemma_arranged(wanted, none);
}

fn first_files(keys: &Vec<Key>, runs: &Vec<Run>) -> (files: Vec<usize>)
    requires
        forall|r: int| 0 <= r < runs@.len() ==> run_in(keys@, #[trigger] runs@[r]),
    ensures
        files@ == representatives(keys@, runs@),
{
    let mut files: Vec<usize> = Vec::new();
    let mut r: usize = 0;
    while r < runs.len()
        invariant
            r <= runs@.len(),
            files@.len() == r,
            forall|i: int| 0 <= i < runs@.len() ==> run_in(keys@, #[trigger] runs@[i]),
            forall|i: int| 0 <= i < r ==> files@[i] == representative(keys@, runs@[i]),
        decreases runs@.len() - r,
    {
        files.push(first_file(keys, runs[r]));
        r += 1;
    }
    assert(files@ =~= representatives(keys@, runs@));
    files
}

fn pick_group(runs: &Vec<Run>, order: &Vec<Key>, pos: usize, end: usize) -> (group: Vec<Run>)
    requires
        pos <= end <= order@.len(),
        forall|j: int| 0 <= j < order@.len() ==> (#[trigger] order@[j]).2 < runs@.len(),
    ensures
        group@ == group_at(runs@, order@, pos as int, end as int),
{
    let mut group: Vec<Run> = Vec::new();
    let mut j: usize = pos;
    while j < end
        invariant
            pos <= j <= end <= order@.len(),
            group@.len() == j - pos,
            forall|i: int| 0 <= i < order@.len() ==> (#[trigger] order@[i]).2 < runs@.len(),
            forall|q: int| 0 <= q < j - pos ==> group@[q] == runs@[order@[pos + q].2 as int],
        decreases end - j,
    {
        group.push(runs[order[j].2]);
        j += 1;
    }
    assert(group@ =~= group_at(runs@, order@, pos as int, end as int));
    group
}

fn conclude(
    keys: Vec<Key>,
    prefix_len: u64,
    link_duplicates: bool,
    start: usize,
    cur: usize,
    runs: Vec<Run>,
    order: Vec<Key>,
    pos: usize,
    stage: Stage,
    merges: Vec<Merge>,
    tally: Statistics,
) -> (out: (Resolver, Step))
    requires
        !(stage@ is Idle),
        well_formed(
            ResolverView {
                keys: keys@,
                prefix_len,
                link_duplicates,
                start: start as int,
                cur: cur as int,
                runs: runs@,
                order: order@,
                pos: pos as int,
                stage: stage@,
            },
        ),
    ensures
        out.0@ == (ResolverView {
            keys: keys@,
            prefix_len,
            link_duplicates,
            start: start as int,
            cur: cur as int,
            runs: runs@,
            order: order@,
            pos: pos as int,
            stage: stage@,
        }),
        out.1@ == (StepView {
            merges: plans(merges@),
            link: link_duplicates,
            tally: tally@,
            request: request_of(out.0@),
        }),
{
    let request = match &stage {
        Stage::Pair { keep, absorb } => Request::Compare {
            left: first_file(&keys, *keep),
            right: first_file(&keys, *absorb),
        },
        Stage::Samples => {
            assert forall|r: int| 0 <= r < runs@.len() implies run_in(keys@, #[trigger] runs@[r]) by {
                assert(run_within(keys@, start as int, cur as int, runs@[r]));
            }
            Request::Sample {
                files: first_files(&keys, &runs),
                length: sample_len(keys[start].0 as u64, prefix_len),
            }
        },
        Stage::Digests { group } => {
            assert forall|r: int| 0 <= r < group@.len() implies run_in(
                keys@,
                #[trigger] group@[r],
            ) by {
                assert(run_within(keys@, start as int, cur as int, group@[r]));
            }
            Request::Digest { files: first_files(&keys, group) }
        },
        _ => Request::Finished,
    };
    (
        Resolver { keys, prefix_len, link_duplicates, start, cur, runs, order, pos, stage },
        Step { merges, link: link_duplicates, tally, request },
    )
}

fn go_on(
    keys: Vec<Key>,
    prefix_len: u64,
    link_duplicates: bool,
    start: usize,
    cur: usize,
    runs: Vec<Run>,
    order: Vec<Key>,
    pos: usize,
    merges: Vec<Merge>,
    tally: Statistics,
) -> (out: (Resolver, Step))
    requires
        well_formed(
            ResolverView {
                keys: keys@,
                prefix_len,
                link_duplicates,
                start: start as int,
                cur: cur as int,
                runs: runs@,
                order: order@,
                pos: pos as int,
                stage: StageView::Idle,
            },
        ),
        tally.buckets == 0,
        tally.bucket_files == 0,
        tally.fully_linked == 0,
        tally.linked_bytes == 0,
        tally.pairs == 0,
    ensures
        well_formed(out.0@),
        out.0@.keys == keys@,
        out.0@.prefix_len == prefix_len,
        out.0@.link_duplicates == link_duplicates,
        out.1@.link == link_duplicates,
        ({
            let r = resume(keys@, start as int, cur as int, runs@, order@, pos as int, tally@);
            &&& out.0@.start == r.start
            &&& out.0@.cur == r.cur
            &&& out.0@.runs == r.runs
            &&& out.0@.order == r.order
            &&& out.0@.pos == r.pos
            &&& out.0@.stage == r.stage
            &&& out.1@.tally == r.tally
        }),
        out.1@.merges == plans(merges@),
        out.1@.request == request_of(out.0@),
{
    let total = keys.len();
    let ghost goal = resume(keys@, start as int, cur as int, runs@, order@, pos as int, tally@);
    let mut lo = start;
    let mut hi = cur;
    let mut held = runs;
    let mut ranking = order;
    let mut at = pos;
    let mut sum = tally;
    let mut stage = Stage::Idle;
    let mut done = false;
    while !done
        invariant
            total == keys@.len(),
            well_formed(
                ResolverView {
                    keys: keys@,
                    prefix_len,
                    link_duplicates,
                    start: lo as int,
                    cur: hi as int,
                    runs: held@,
                    order: ranking@,
                    pos: at as int,
                    stage: stage@,
                },
            ),
            !done ==> stage@ is Idle && goal == resume(
                keys@,
                lo as int,
                hi as int,
                held@,
                ranking@,
                at as int,
                sum@,
            ),
            done ==> !(stage@ is Idle) && goal == (Resumed {
                start: lo as int,
                cur: hi as int,
                runs: held@,
                order: ranking@,
                pos: at as int,
                stage: stage@,
                tally: sum@,
            }),
            sum.buckets <= hi,
            sum.bucket_files <= hi,
            sum.fully_linked <= hi,
            sum.pairs <= hi,
            sum.linked_bytes <= hi * 0xFFFF_FFFF_FFFF_FFFF,
        decreases
                (if done {
                    0int
                } else {
                    1int
                }),
                total - hi,
                ranking@.len() - at,
    {
        if at < ranking.len() {
            let end = find_bucket_end(&ranking, at);
            proof {
                lemma_bucket_end(ranking@, at as int);
                assert(ranking@[end - 1].0 == ranking@[at as int].0);
            }
            if end - at == 1 {
                at = end;
            } else if end - at == 2 {
                let keep = held[ranking[at].2];
                let absorb = held[ranking[at + 1].2];
                proof {
                    lemma_bucket_end(ranking@, at as int);
                    assert(key_lt(ranking@[at as int], ranking@[at + 1]));
                    assert(ranking@[at + 1].0 == ranking@[at as int].0);
                    let a = ranking@[at as int].2 as int;
                    let b = ranking@[at + 1].2 as int;
                    assert(a != b);
                    assert(run_within(keys@, lo as int, hi as int, held@[a]));
                    assert(run_within(keys@, lo as int, hi as int, held@[b]));
                    if a < b {
                        assert(keys@[held@[a].first as int].1 != keys@[held@[b].first as int].1);
                    } else {
                        assert(keys@[held@[b].first as int].1 != keys@[held@[a].first as int].1);
                    }
                }
                stage = Stage::Pair { keep, absorb };
                at = end;
                done = true;
            } else {
                let group = pick_group(&held, &ranking, at, end);
                proof {
                    lemma_bucket_end(ranking@, at as int);
                    assert forall|a: int, b: int| 0 <= a < b < group@.len() implies (
                    #[trigger] group@[a]).len >= (#[trigger] group@[b]).len by {
                        assert(key_lt(ranking@[at + a], ranking@[at + b]));
                        assert(ranking@[at + a].0 == ranking@[at as int].0);
                        assert(ranking@[at + b].0 == ranking@[at as int].0);
                    }
                    assert forall|k: int| 0 <= k < group@.len() implies run_within(
                        keys@,
                        lo as int,
                        hi as int,
                        #[trigger] group@[k],
                    ) by {
                        let a = ranking@[at + k].2 as int;
                        assert(run_within(keys@, lo as int, hi as int, held@[a]));
                    }
                    assert forall|j: int, k: int| 0 <= j < k < group@.len() implies keys@[(
                    #[trigger] group@[j]).first as int].1 != keys@[(
                    #[trigger] group@[k]).first as int].1 by {
                        let a = ranking@[at + j].2 as int;
                        let b = ranking@[at + k].2 as int;
                        assert(a != b);
                        if a < b {
                            assert(keys@[held@[a].first as int].1 != keys@[held@[b].first as int].1);
                        } else {
                            assert(keys@[held@[b].first as int].1 != keys@[held@[a].first as int].1);
                        }
                    }
                }
                stage = Stage::Digests { group };
                at = end;
                done = true;
            }
        } else if hi < total {
            let end = find_bucket_end(&keys, hi);
            let files = end - hi;
            let ghost before = sum@;
            proof {
                lemma_bucket_end(keys@, hi as int);
            }
            if files == 1 {
                lo = hi;
                hi = end;
                held = Vec::new();
                ranking = Vec::new();
                at = 0;
            } else {
                let found = split_runs(&keys, hi, end);
                let size = keys[hi].0;
                proof {
                    lemma_tiles_separate(keys@, hi as int, end as int, found@);
                }
                sum.buckets = sum.buckets + 1;
                sum.bucket_files = sum.bucket_files + files as u128;
                if found.len() == 1 {
                    assert((files - 1) * size <= files * 0xFFFF_FFFF_FFFF_FFFF) by (nonlinear_arith)
                        requires
                            files >= 1,
                            0 <= size <= 0xFFFF_FFFF_FFFF_FFFF,
                    ;
                    sum.fully_linked = sum.fully_linked + 1;
                    sum.linked_bytes = sum.linked_bytes + (files as u128 - 1) * size;
                    assert(sum@ == before.with_linked_bucket(files as nat, size as nat));
                    lo = hi;
                    hi = end;
                    held = Vec::new();
                    ranking = Vec::new();
                    at = 0;
                } else {
                    if files == 2 {
                        sum.pairs = sum.pairs + 1;
                    }
                    assert(sum@ == before.with_bucket(files as nat));
                    if found.len() == 2 {
                        let pair = if files == 2 {
                            (found[0], found[1])
                        } else {
                            direction(found[0], found[1])
                        };
                        proof {
                            assert(run_within(keys@, hi as int, end as int, found@[0]));
                            assert(run_within(keys@, hi as int, end as int, found@[1]));
                            assert(found@[0].first + found@[0].len == found@[1].first);
                        }
                        stage = Stage::Pair { keep: pair.0, absorb: pair.1 };
                    } else {
                        stage = Stage::Samples;
                    }
                    lo = hi;
                    hi = end;
                    held = found;
                    ranking = Vec::new();
                    at = 0;
                    done = true;
                }
            }
        } else {
            stage = Stage::Finished;
            done = true;
        }
    }
    conclude(keys, prefix_len, link_duplicates, lo, hi, held, ranking, at, stage, merges, sum)
}

impl Resolver {
    #[verifier::type_invariant]
    spec fn valid(self) -> bool {
        well_formed(self@)
    }

    /// Whether the resolver has finished: it asks for nothing more.
    pub fn is_finished(&self) -> (done: bool)
        ensures
            done == (self@.stage is Finished),
    {
        match self.stage {
            Stage::Finished => true,
            _ => false,
        }
    }

    /// Starts a resolver on `files`. It works on the catalog of the records
    /// whose identity is known; the indices it speaks of in requests and
    /// merges are indices into `files`. `prefix_len` is the number of leading
    /// bytes that a sample hash covers at most; `link_duplicates` says
    /// whether the merges are to be carried out or only reported.
    pub fn new(files: &Vec<FileRecord>, prefix_len: u64, link_duplicates: bool) -> (resolver:
        Resolver)
        ensures
            well_formed(resolver@),
            catalog_of(files@, resolver@.keys),
            resolver@ == initial(resolver@.keys, prefix_len, link_duplicates),
    {
        let keys = catalog(files);
        let total = keys.len();
        proof {
            assert forall|p: int| 0 <= p < keys@.len() implies (#[trigger] keys@[p]).0
                <= u64::MAX by {
                assert(describes(files@, keys@[p]));
            }
        }
        Resolver {
            keys,
            prefix_len,
            link_duplicates,
            start: 0,
            cur: 0,
            runs: Vec::new(),
            order: Vec::new(),
            pos: 0,
            stage: Stage::Idle,
        }
    }

    /// Takes one step: settles the request of the step before with `reply`
    /// and goes on to the next request. The first step takes any reply.
    pub fn advance(self, reply: Reply) -> (out: (Resolver, Step))
        ensures
            well_formed(self@),
            well_formed(out.0@),
            (out.0@, out.1@) == step_of(self@, reply@),
    {
        proof {
            use_type_invariant(&self);
        }
        let ghost s = self@;
        let ghost given = reply@;
        let Resolver { keys, prefix_len, link_duplicates, start, cur, runs, order, pos, stage } =
            self;
        let mut order = order;
        let mut tally: Statistics;
        let merges: Vec<Merge>;
        match stage {
            Stage::Pair { keep, absorb } => {
                let same = match reply {
                    Reply::Compared(same) => same,
                    _ => false,
                };
                let mut list: Vec<Merge> = Vec::new();
                if same {
                    let merge = merge_runs(&keys, keep, absorb);
                    list.push(merge);
                    assert(plans(list@) =~= seq![merge_plan(s.keys, keep, absorb)]);
                } else {
                    assert(plans(list@) =~= Seq::<MergePlan>::empty());
                }
                merges = list;
                tally = tally_merges(&merges);
                tally.comparisons = 1;
            },
            Stage::Samples => {
                merges = Vec::new();
                assert(plans(merges@) =~= Seq::<MergePlan>::empty());
                tally = Statistics::new();
                tally.sample_hashes = runs.len() as u128;
                proof {
                    lemma_nothing_arranged(
                        sample_wants(s.runs, Seq::new(s.runs.len(), |i: int| None::<u128>)),
                    );
                }
                order = match reply {
                    Reply::Sampled(hashes) => {
                        if hashes.len() == runs.len() {
                            rank_runs(&runs, &hashes)
                        } else {
                            Vec::new()
                        }
                    },
                    _ => Vec::new(),
                };
            },
            Stage::Digests { group } => {
                let size = keys[start].0;
                let count = group.len() as u128;
                proof {
                    let none = Seq::new(group@.len(), |i: int| None::<ContentHash>);
                    lemma_nothing_arranged(digest_wants(none));
                    assert(content_merges(s.keys, group@, none) =~= Seq::<MergePlan>::empty());
                    assert forall|r: int| 0 <= r < group@.len() implies run_in(
                        keys@,
                        #[trigger] group@[r],
                    ) && keys@[group@[r].first as int].0 <= u64::MAX by {
                        assert(run_within(keys@, start as int, cur as int, group@[r]));
                    }
                }
                merges = match reply {
                    Reply::Digested(hashes) => {
                        if hashes.len() == group.len() {
                            merge_by_digest(&keys, &group, &hashes)
                        } else {
                            Vec::new()
                        }
                    },
                    _ => Vec::new(),
                };
                assert(plans(merges@) =~= settle(s, given).merges);
                assert(count * size <= 0xFFFF_FFFF_FFFF_FFFF * 0xFFFF_FFFF_FFFF_FFFF)
                    by (nonlinear_arith)
                    requires
                        0 <= count <= 0xFFFF_FFFF_FFFF_FFFF,
                        0 <= size <= 0xFFFF_FFFF_FFFF_FFFF,
                ;
                tally = tally_merges(&merges);
                tally.content_hashes = count;
                tally.content_hash_bytes = count * size;
            },
            _ => {
                merges = Vec::new();
                assert(plans(merges@) =~= Seq::<MergePlan>::empty());
                tally = Statistics::new();
            },
        }
        assert(plans(merges@) == settle(s, given).merges);
        assert(tally@ == settle(s, given).tally);
        assert(order@ == settle(s, given).order);
        go_on(keys, prefix_len, link_duplicates, start, cur, runs, order, pos, merges, tally)
    }
}

} // verus!
