//! What the scanner decides about each directory entry. Walking the tree
//! and asking the file system is the caller's part.

use vstd::prelude::*;
use crate::paths::{file_name, joined};

verus! {

/// A compiled pattern of the `glob` crate. Nothing of its content is
/// visible to proofs.
#[verifier::external_type_specification]
#[verifier::external_body]
pub struct ExPattern(glob::Pattern);

/// Calls `Pattern::matches` with the entry's name. Nothing is claimed of
/// the answer: which names a pattern matches is the crate's business, and
/// for patterns that speak of path separators it differs between
/// platforms.
#[verifier::external_body]
fn pattern_matches(pattern: &glob::Pattern, name: &str) -> (matched: bool) {
    pattern.matches(name)
}

/// What kind of thing a directory entry is, by its own metadata and
/// without following links.
#[derive(Clone, Copy, Debug, PartialEq, Eq, Structural)]
pub enum EntryKind {
    Symlink,
    File,
    Directory,
    Other,
}

/// What to do with a directory entry.
#[derive(Clone, Copy, Debug, PartialEq, Eq, Structural)]
pub enum Verdict {
    /// Pass it over.
    Skip,
    /// Record it as a file to deduplicate.
    Record,
    /// It is a directory to walk, unless it holds the marker that asks to
    /// keep its duplicates.
    Probe,
}

/// The limits and patterns that decide which entries are scanned.
pub struct Filter {
    /// Smallest file size recorded.
    pub min_size: u64,
    /// Largest file size recorded.
    pub max_size: u64,
    /// Names matching one of these are passed over, files and directories
    /// alike.
    pub exclude_files: Vec<glob::Pattern>,
    /// Directories whose name matches one of these are not walked.
    pub exclude_dirs: Vec<glob::Pattern>,
}

/// The verdict on an entry, given whether its name matched a pattern for
/// entries and (for a directory) a pattern for directories. Links are never
/// followed; a file counts if its size is within the limits.
pub open spec fn verdict(
    kind: EntryKind,
    size: u64,
    min_size: u64,
    max_size: u64,
    name_excluded: bool,
    dir_excluded: bool,
) -> Verdict {
    match kind {
        EntryKind::Symlink => Verdict::Skip,
        EntryKind::Other => Verdict::Skip,
        EntryKind::File => if !name_excluded && min_size <= size <= max_size {
            Verdict::Record
        } else {
            Verdict::Skip
        },
        EntryKind::Directory => if !name_excluded && !dir_excluded {
            Verdict::Probe
        } else {
            Verdict::Skip
        },
    }
}

/// Decides on an entry from its kind, its size and the results of the
/// pattern matches.
pub fn decide(
    kind: EntryKind,
    size: u64,
    min_size: u64,
    max_size: u64,
    name_excluded: bool,
    dir_excluded: bool,
) -> (v: Verdict)
    ensures
        v == verdict(kind, size, min_size, max_size, name_excluded, dir_excluded),
{
    match kind {
        EntryKind::Symlink => Verdict::Skip,
        EntryKind::Other => Verdict::Skip,
        EntryKind::File => {
            if !name_excluded && min_size <= size && size <= max_size {
                Verdict::Record
            } else {
                Verdict::Skip
            }
        },
        EntryKind::Directory => {
            if !name_excluded && !dir_excluded {
                Verdict::Probe
            } else {
                Verdict::Skip
            }
        },
    }
}

/// Asks every pattern whether it matches `name`: one answer for each
/// pattern, in the order of the patterns.
pub fn pattern_answers(patterns: &Vec<glob::Pattern>, name: &str) -> (answers: Vec<bool>)
    ensures
        answers@.len() == patterns@.len(),
{
    let mut answers: Vec<bool> = Vec::new();
    let mut i: usize = 0;
    while i < patterns.len()
        invariant
            i <= patterns@.len(),
            answers@.len() == i,
        decreases patterns@.len() - i,
    {
        answers.push(pattern_matches(&patterns[i], name));
        i += 1;
    }
    answers
}

/// Whether one of the answers is yes.
pub fn any_yes(answers: &Vec<bool>) -> (matched: bool)
    ensures
        matched == exists|i: int| 0 <= i < answers@.len() && answers@[i],
{
    let mut i: usize = 0;
    while i < answers.len()
        invariant
            i <= answers@.len(),
            forall|k: int| 0 <= k < i ==> !answers@[k],
        decreases answers@.len() - i,
    {
        if answers[i] {
            return true;
        }
        i += 1;
    }
    false
}

/// Whether `name` matches one of `patterns`: every pattern is asked, and
/// one yes is enough. With no pattern nothing matches.
pub fn matches_any(patterns: &Vec<glob::Pattern>, name: &str) -> (matched: bool)
    ensures
        patterns@.len() == 0 ==> !matched,
{
    let answers = pattern_answers(patterns, name);
    any_yes(&answers)
}

/// Decides on the entry `name` of the given kind and size under `filter`.
/// The verdict is the one that [`verdict`] gives for what the patterns
/// answered; without patterns it depends on kind and size alone.
pub fn judge_entry(filter: &Filter, kind: EntryKind, name: &str, size: u64) -> (v: Verdict)
    ensures
        exists|name_excluded: bool, dir_excluded: bool|
            v == verdict(
                kind,
                size,
                filter.min_size,
                filter.max_size,
                name_excluded,
                dir_excluded,
            ),
        filter.exclude_files@.len() == 0 && filter.exclude_dirs@.len() == 0 ==> v == verdict(
            kind,
            size,
            filter.min_size,
            filter.max_size,
            false,
            false,
        ),
        kind is Symlink || kind is Other ==> v is Skip,
        kind is File && !(filter.min_size <= size <= filter.max_size) ==> v is Skip,
        v is Record ==> kind is File && filter.min_size <= size <= filter.max_size,
        v is Probe ==> kind is Directory,
{
    match kind {
        EntryKind::Symlink => decide(kind, size, filter.min_size, filter.max_size, false, false),
        EntryKind::Other => decide(kind, size, filter.min_size, filter.max_size, false, false),
        EntryKind::File => {
            let name_excluded = matches_any(&filter.exclude_files, name);
            decide(kind, size, filter.min_size, filter.max_size, name_excluded, false)
        },
        EntryKind::Directory => {
            let name_excluded = matches_any(&filter.exclude_files, name);
            let dir_excluded = if name_excluded {
                false
            } else {
                matches_any(&filter.exclude_dirs, name)
            };
            decide(kind, size, filter.min_size, filter.max_size, name_excluded, dir_excluded)
        },
    }
}

/// The name of the marker whose presence in a directory asks to leave the
/// directory and everything below it alone.
pub fn marker_name() -> (name: &'static str)
    ensures
        name@ == ".keep_duplicates"@,
{
    ".keep_duplicates"
}

/// The path of the marker in directory `dir`.
pub fn marker_path(dir: &str) -> (path: String)
    ensures
        path@ == joined(dir@, ".keep_duplicates"@),
{
    file_name(dir, marker_name())
}

/// What to do with a directory that was probed for the marker.
#[derive(Clone, Copy, Debug, PartialEq, Eq, Structural)]
pub enum Descent {
    /// Walk it.
    Walk,
    /// Leave it and everything below it alone.
    Leave,
}

/// The descent that follows a probe: a directory that holds the marker is
/// left alone, any other is walked.
pub open spec fn descent(marker_found: bool) -> Descent {
    if marker_found {
        Descent::Leave
    } else {
        Descent::Walk
    }
}

/// Decides, once a directory was probed for the marker, whether to walk it.
pub fn after_probe(marker_found: bool) -> (d: Descent)
    ensures
        d == descent(marker_found),
{
    if marker_found {
        Descent::Leave
    } else {
        Descent::Walk
    }
}

} // verus!
