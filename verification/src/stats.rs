//! Session statistics. The resolver reports what each step added; the
//! caller keeps the running totals.

use vstd::prelude::*;

verus! {

/// Counters as unbounded numbers.
pub struct Tally {
    /// Buckets of two or more files.
    pub buckets: nat,
    /// Files in those buckets.
    pub bucket_files: nat,
    /// Buckets whose files were all one physical file already.
    pub fully_linked: nat,
    /// Bytes that those existing links save.
    pub linked_bytes: nat,
    /// Buckets of exactly two files that had to be compared.
    pub pairs: nat,
    /// Byte comparisons asked for.
    pub comparisons: nat,
    /// Sample hashes asked for.
    pub sample_hashes: nat,
    /// Content hashes asked for.
    pub content_hashes: nat,
    /// Bytes covered by those content hashes.
    pub content_hash_bytes: nat,
    /// Runs merged into another run.
    pub merges: nat,
    /// Files of those runs.
    pub merged_files: nat,
    /// Hard links that the merges call for.
    pub links: nat,
    /// Bytes that the merges save: one file's size for each run merged.
    pub saved_bytes: nat,
}

impl Tally {
    /// All counters at zero.
    pub open spec fn zero() -> Tally {
        Tally {
            buckets: 0,
            bucket_files: 0,
            fully_linked: 0,
            linked_bytes: 0,
            pairs: 0,
            comparisons: 0,
            sample_hashes: 0,
            content_hashes: 0,
            content_hash_bytes: 0,
            merges: 0,
            merged_files: 0,
            links: 0,
            saved_bytes: 0,
        }
    }

    /// Counter by counter, the sum.
    pub open spec fn plus(self, other: Tally) -> Tally {
        Tally {
            buckets: self.buckets + other.buckets,
            bucket_files: self.bucket_files + other.bucket_files,
            fully_linked: self.fully_linked + other.fully_linked,
            linked_bytes: self.linked_bytes + other.linked_bytes,
            pairs: self.pairs + other.pairs,
            comparisons: self.comparisons + other.comparisons,
            sample_hashes: self.sample_hashes + other.sample_hashes,
            content_hashes: self.content_hashes + other.content_hashes,
            content_hash_bytes: self.content_hash_bytes + other.content_hash_bytes,
            merges: self.merges + other.merges,
            merged_files: self.merged_files + other.merged_files,
            links: self.links + other.links,
            saved_bytes: self.saved_bytes + other.saved_bytes,
        }
    }

    /// A bucket of `files` files was found.
    pub open spec fn with_bucket(self, files: nat) -> Tally {
        Tally {
            buckets: self.buckets + 1,
            bucket_files: self.bucket_files + files,
            pairs: if files == 2 {
                self.pairs + 1
            } else {
                self.pairs
            },
            ..self
        }
    }

    /// A bucket of `files` files of `size` bytes each was found to be one
    /// physical file: all but one of its names are savings made earlier.
    pub open spec fn with_linked_bucket(self, files: nat, size: nat) -> Tally {
        Tally {
            buckets: self.buckets + 1,
            bucket_files: self.bucket_files + files,
            fully_linked: self.fully_linked + 1,
            linked_bytes: self.linked_bytes + ((files - 1) * size) as nat,
            ..self
        }
    }

    /// A run of `files` files of `size` bytes each was merged into another.
    pub open spec fn with_merge(self, files: nat, size: nat) -> Tally {
        Tally {
            merges: self.merges + 1,
            merged_files: self.merged_files + files,
            links: self.links + files,
            saved_bytes: self.saved_bytes + size,
            ..self
        }
    }

    /// No counter exceeds what a `u128` holds.
    pub open spec fn representable(self) -> bool {
        &&& self.buckets <= u128::MAX
        &&& self.bucket_files <= u128::MAX
        &&& self.fully_linked <= u128::MAX
        &&& self.linked_bytes <= u128::MAX
        &&& self.pairs <= u128::MAX
        &&& self.comparisons <= u128::MAX
        &&& self.sample_hashes <= u128::MAX
        &&& self.content_hashes <= u128::MAX
        &&& self.content_hash_bytes <= u128::MAX
        &&& self.merges <= u128::MAX
        &&& self.merged_files <= u128::MAX
        &&& self.links <= u128::MAX
        &&& self.saved_bytes <= u128::MAX
    }
}

/// The counters of a session, or of one step of it.
#[derive(Clone, Copy, Debug, PartialEq, Eq, Structural)]
pub struct Statistics {
    pub buckets: u128,
    pub bucket_files: u128,
    pub fully_linked: u128,
    pub linked_bytes: u128,
    pub pairs: u128,
    pub comparisons: u128,
    pub sample_hashes: u128,
    pub content_hashes: u128,
    pub content_hash_bytes: u128,
    pub merges: u128,
    pub merged_files: u128,
    pub links: u128,
    pub saved_bytes: u128,
}

impl View for Statistics {
    type V = Tally;

    open spec fn view(&self) -> Tally {
        Tally {
            buckets: self.buckets as nat,
            bucket_files: self.bucket_files as nat,
            fully_linked: self.fully_linked as nat,
            linked_bytes: self.linked_bytes as nat,
            pairs: self.pairs as nat,
            comparisons: self.comparisons as nat,
            sample_hashes: self.sample_hashes as nat,
            content_hashes: self.content_hashes as nat,
            content_hash_bytes: self.content_hash_bytes as nat,
            merges: self.merges as nat,
            merged_files: self.merged_files as nat,
            links: self.links as nat,
            saved_bytes: self.saved_bytes as nat,
        }
    }
}

fn room(total: u128, more: u128) -> (fits: bool)
    ensures
        fits == (total + more <= u128::MAX),
{
    more <= u128::MAX - total
}

impl Statistics {
    /// All counters at zero.
    pub fn new() -> (stats: Statistics)
        ensures
            stats@ == Tally::zero(),
    {
        Statistics {
            buckets: 0,
            bucket_files: 0,
            fully_linked: 0,
            linked_bytes: 0,
            pairs: 0,
            comparisons: 0,
            sample_hashes: 0,
            content_hashes: 0,
            content_hash_bytes: 0,
            merges: 0,
            merged_files: 0,
            links: 0,
            saved_bytes: 0,
        }
    }

    /// Whether `step` can be added without any counter leaving its range.
    pub fn fits(&self, step: &Statistics) -> (fits: bool)
        ensures
            fits == self@.plus(step@).representable(),
    {
        room(self.buckets, step.buckets) && room(self.bucket_files, step.bucket_files) && room(
            self.fully_linked,
            step.fully_linked,
        ) && room(self.linked_bytes, step.linked_bytes) && room(self.pairs, step.pairs) && room(
            self.comparisons,
            step.comparisons,
        ) && room(self.sample_hashes, step.sample_hashes) && room(
            self.content_hashes,
            step.content_hashes,
        ) && room(self.content_hash_bytes, step.content_hash_bytes) && room(
            self.merges,
            step.merges,
        ) && room(self.merged_files, step.merged_files) && room(self.links, step.links) && room(
            self.saved_bytes,
            step.saved_bytes,
        )
    }

    /// Adds the counters of `step` to the totals.
    pub fn add(&mut self, step: &Statistics)
        requires
            old(self)@.plus(step@).representable(),
        ensures
            final(self)@ == old(self)@.plus(step@),
    {
        self.buckets = self.buckets + step.buckets;
        self.bucket_files = self.bucket_files + step.bucket_files;
        self.fully_linked = self.fully_linked + step.fully_linked;
        self.linked_bytes = self.linked_bytes + step.linked_bytes;
        self.pairs = self.pairs + step.pairs;
        self.comparisons = self.comparisons + step.comparisons;
        self.sample_hashes = self.sample_hashes + step.sample_hashes;
        self.content_hashes = self.content_hashes + step.content_hashes;
        self.content_hash_bytes = self.content_hash_bytes + step.content_hash_bytes;
        self.merges = self.merges + step.merges;
        self.merged_files = self.merged_files + step.merged_files;
        self.links = self.links + step.links;
        self.saved_bytes = self.saved_bytes + step.saved_bytes;
    }

    /// Adds the counters of `step` to the totals if every sum stays in
    /// range, and says whether it did. Otherwise the totals stay as they
    /// were.
    pub fn try_add(&mut self, step: &Statistics) -> (added: bool)
        ensures
            added == old(self)@.plus(step@).representable(),
            added ==> final(self)@ == old(self)@.plus(step@),
            !added ==> *final(self) == *old(self),
    {
        if self.fits(step) {
            self.add(step);
            true
        } else {
            false
        }
    }
}

} // verus!
