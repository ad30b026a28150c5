use hardlink_dedup::link::{next_link_step, LinkAction, LinkOutcome, LinkStage};
use hardlink_dedup::paths::{file_name, temporary_name, DirectoryTable};
use hardlink_dedup::record::{FileRecord, Identity};
use hardlink_dedup::scan::{
    after_probe, any_yes, decide, judge_entry, marker_name, marker_path, matches_any,
    pattern_answers, Descent, EntryKind, Filter, Verdict,
};
use hardlink_dedup::stats::Statistics;

#[test]
fn file_name_joins_with_one_separator() {
    assert_eq!(file_name("/data/games", "a.bin"), "/data/games/a.bin");
    assert_eq!(file_name("/data/games/", "a.bin"), "/data/games/a.bin");
    assert_eq!(file_name(".", "a.bin"), "./a.bin");
    assert_eq!(file_name("/", "a.bin"), "/a.bin");
    assert_eq!(file_name("", "a.bin"), "a.bin");
    assert_eq!(file_name("dir", ""), "dir/");
}

#[test]
fn file_name_lets_a_rooted_name_stand() {
    assert_eq!(file_name("/data", "/etc/passwd"), "/etc/passwd");
}

#[test]
fn file_name_keeps_characters_beyond_ascii() {
    assert_eq!(file_name("/données/é", "ü.txt"), "/données/é/ü.txt");
}

#[test]
fn temporary_name_adds_the_reserved_suffix() {
    assert_eq!(temporary_name("/data/a.bin"), "/data/a.bin.dbl");
    assert_eq!(temporary_name(""), ".dbl");
}

#[test]
fn marker_path_names_the_keep_marker() {
    assert_eq!(marker_path("/data/saves"), "/data/saves/.keep_duplicates");
}

#[test]
fn directory_table_hands_out_stable_indices() {
    let mut table = DirectoryTable::new();
    assert_eq!(table.len(), 0);
    assert_eq!(table.get(0), None);
    assert_eq!(table.add(String::from("/a")), 0);
    assert_eq!(table.add(String::from("/b")), 1);
    assert_eq!(table.add(String::from("/a")), 2);
    assert_eq!(table.len(), 3);
    assert_eq!(table.get(0), Some("/a"));
    assert_eq!(table.get(1), Some("/b"));
    assert_eq!(table.get(3), None);
}

#[test]
fn directory_table_builds_the_path_of_a_record() {
    let mut table = DirectoryTable::new();
    table.add(String::from("/a"));
    table.add(String::from("/b/c"));
    let record = FileRecord {
        dir_index: 1,
        identity: Identity::Pending,
        size: 3,
        name: String::from("x.dat"),
    };
    assert_eq!(table.path_of(&record), Some(String::from("/b/c/x.dat")));
    let stray = FileRecord { dir_index: 2, ..record };
    assert_eq!(table.path_of(&stray), None);
}

#[test]
fn a_link_that_works_takes_two_operations() {
    let (stage, action) = next_link_step(LinkStage::Start, true);
    assert_eq!((stage, action), (LinkStage::Linking, LinkAction::CreateLink));
    let (stage, action) = next_link_step(stage, true);
    assert_eq!((stage, action), (LinkStage::Renaming, LinkAction::Rename));
    let (stage, action) = next_link_step(stage, true);
    assert_eq!(stage, LinkStage::Finished(LinkOutcome::Linked));
    assert_eq!(action, LinkAction::Stop(LinkOutcome::Linked));
    assert_eq!(next_link_step(stage, false), (stage, action));
}

#[test]
fn a_failed_link_touches_nothing_more() {
    let (stage, _) = next_link_step(LinkStage::Start, false);
    let (stage, action) = next_link_step(stage, false);
    assert_eq!(stage, LinkStage::Finished(LinkOutcome::LinkFailed));
    assert_eq!(action, LinkAction::Stop(LinkOutcome::LinkFailed));
}

#[test]
fn a_failed_rename_removes_the_temporary_link() {
    let (stage, action) = next_link_step(LinkStage::Renaming, false);
    assert_eq!((stage, action), (LinkStage::Removing, LinkAction::Remove));
    for removed in [true, false] {
        let (stage, action) = next_link_step(stage, removed);
        assert_eq!(stage, LinkStage::Finished(LinkOutcome::RenameFailed));
        assert_eq!(action, LinkAction::Stop(LinkOutcome::RenameFailed));
    }
}

#[test]
fn decide_records_files_within_the_limits() {
    assert_eq!(decide(EntryKind::File, 100, 100, 200, false, false), Verdict::Record);
    assert_eq!(decide(EntryKind::File, 200, 100, 200, false, false), Verdict::Record);
    assert_eq!(decide(EntryKind::File, 99, 100, 200, false, false), Verdict::Skip);
    assert_eq!(decide(EntryKind::File, 201, 100, 200, false, false), Verdict::Skip);
    assert_eq!(decide(EntryKind::File, 150, 100, 200, true, false), Verdict::Skip);
    assert_eq!(decide(EntryKind::File, 150, 100, 200, false, true), Verdict::Record);
}

#[test]
fn decide_walks_directories_unless_excluded() {
    assert_eq!(decide(EntryKind::Directory, 0, 100, 200, false, false), Verdict::Probe);
    assert_eq!(decide(EntryKind::Directory, 0, 100, 200, true, false), Verdict::Skip);
    assert_eq!(decide(EntryKind::Directory, 0, 100, 200, false, true), Verdict::Skip);
}

#[test]
fn decide_never_follows_links() {
    assert_eq!(decide(EntryKind::Symlink, 150, 100, 200, false, false), Verdict::Skip);
    assert_eq!(decide(EntryKind::Other, 150, 100, 200, false, false), Verdict::Skip);
}

#[test]
fn matches_any_asks_every_pattern() {
    let patterns = vec![
        glob::Pattern::new("unins*").unwrap(),
        glob::Pattern::new("*.db").unwrap(),
    ];
    assert!(matches_any(&patterns, "unins000.exe"));
    assert!(matches_any(&patterns, "thumbs.db"));
    assert!(!matches_any(&patterns, "game.exe"));
    assert!(!matches_any(&Vec::new(), "thumbs.db"));
}

#[test]
fn judge_entry_applies_patterns_and_limits() {
    let filter = Filter {
        min_size: 10,
        max_size: 1000,
        exclude_files: vec![glob::Pattern::new("*.db").unwrap()],
        exclude_dirs: vec![glob::Pattern::new("WINDOWS").unwrap()],
    };
    assert_eq!(judge_entry(&filter, EntryKind::File, "a.bin", 10), Verdict::Record);
    assert_eq!(judge_entry(&filter, EntryKind::File, "a.bin", 9), Verdict::Skip);
    assert_eq!(judge_entry(&filter, EntryKind::File, "a.db", 10), Verdict::Skip);
    assert_eq!(judge_entry(&filter, EntryKind::File, "WINDOWS", 10), Verdict::Record);
    assert_eq!(judge_entry(&filter, EntryKind::Directory, "saves", 0), Verdict::Probe);
    assert_eq!(judge_entry(&filter, EntryKind::Directory, "WINDOWS", 0), Verdict::Skip);
    assert_eq!(judge_entry(&filter, EntryKind::Directory, "cache.db", 0), Verdict::Skip);
    assert_eq!(judge_entry(&filter, EntryKind::Symlink, "a.bin", 10), Verdict::Skip);
}

#[test]
fn statistics_add_up_counter_by_counter() {
    let mut total = Statistics::new();
    let mut step = Statistics::new();
    step.buckets = 1;
    step.bucket_files = 3;
    step.links = 2;
    step.saved_bytes = 100;
    assert!(total.fits(&step));
    total.add(&step);
    total.add(&step);
    assert_eq!(total.buckets, 2);
    assert_eq!(total.bucket_files, 6);
    assert_eq!(total.links, 4);
    assert_eq!(total.saved_bytes, 200);
    assert_eq!(total.comparisons, 0);
}

#[test]
fn statistics_refuse_a_sum_out_of_range() {
    let mut total = Statistics::new();
    total.saved_bytes = u128::MAX - 5;
    let mut step = Statistics::new();
    step.saved_bytes = 6;
    step.links = 1;
    assert!(!total.fits(&step));
    assert!(!total.try_add(&step));
    assert_eq!(total.saved_bytes, u128::MAX - 5);
    assert_eq!(total.links, 0);
    step.saved_bytes = 5;
    assert!(total.try_add(&step));
    assert_eq!(total.saved_bytes, u128::MAX);
    assert_eq!(total.links, 1);
}

#[test]
fn any_yes_needs_one_yes() {
    assert!(!any_yes(&Vec::new()));
    assert!(!any_yes(&vec![false]));
    assert!(!any_yes(&vec![false, false, false]));
    assert!(any_yes(&vec![true]));
    assert!(any_yes(&vec![false, false, true]));
    assert!(any_yes(&vec![true, false, false]));
}

#[test]
fn pattern_answers_gives_one_answer_for_each_pattern() {
    let patterns = vec![
        glob::Pattern::new("unins*").unwrap(),
        glob::Pattern::new("*.db").unwrap(),
        glob::Pattern::new("?humbs.*").unwrap(),
    ];
    assert_eq!(pattern_answers(&patterns, "thumbs.db"), vec![false, true, true]);
    assert_eq!(pattern_answers(&patterns, "unins000.exe"), vec![true, false, false]);
    assert_eq!(pattern_answers(&patterns, "game.exe"), vec![false, false, false]);
    assert_eq!(pattern_answers(&Vec::new(), "game.exe"), Vec::<bool>::new());
}

#[test]
fn a_directory_with_the_marker_is_left_alone() {
    assert_eq!(after_probe(true), Descent::Leave);
    assert_eq!(after_probe(false), Descent::Walk);
    assert_eq!(marker_name(), ".keep_duplicates");
}
