use hardlink_dedup::compare::{bytewise_equal, content_hash, sample_hash, ContentHash};
use hardlink_dedup::merge::Merge;
use hardlink_dedup::record::{FileRecord, Identity};
use hardlink_dedup::resolver::{Reply, Request, Resolver};
use hardlink_dedup::stats::Statistics;

/// A file set held in memory, with a record of what was asked of it.
struct World {
    files: Vec<FileRecord>,
    contents: Vec<Vec<u8>>,
    unreadable: Vec<bool>,
    compared: Vec<(usize, usize)>,
    sampled: Vec<usize>,
    digested: Vec<usize>,
    links: Vec<(usize, usize)>,
}

fn world(entries: &[(&str, u128, &[u8])]) -> World {
    let mut files = Vec::new();
    let mut contents = Vec::new();
    for (name, id, content) in entries {
        files.push(FileRecord {
            dir_index: 0,
            identity: Identity::Known(*id),
            size: content.len() as u64,
            name: name.to_string(),
        });
        contents.push(content.to_vec());
    }
    let unreadable = vec![false; files.len()];
    World {
        files,
        contents,
        unreadable,
        compared: Vec::new(),
        sampled: Vec::new(),
        digested: Vec::new(),
        links: Vec::new(),
    }
}

fn answer(world: &mut World, request: &Request, prefix_len: u64) -> Reply {
    match request {
        Request::Compare { left, right } => {
            world.compared.push((*left, *right));
            let readable = !world.unreadable[*left] && !world.unreadable[*right];
            Reply::Compared(
                readable && bytewise_equal(&world.contents[*left], &world.contents[*right]),
            )
        }
        Request::Sample { files, length } => {
            let mut hashes = Vec::new();
            for f in files {
                world.sampled.push(*f);
                assert!(*length <= prefix_len);
                assert!(*length <= world.files[*f].size);
                hashes.push(if world.unreadable[*f] {
                    None
                } else {
                    sample_hash(&world.contents[*f], world.files[*f].size, prefix_len)
                });
            }
            Reply::Sampled(hashes)
        }
        Request::Digest { files } => {
            let mut hashes: Vec<Option<ContentHash>> = Vec::new();
            for f in files {
                world.digested.push(*f);
                hashes.push(if world.unreadable[*f] {
                    None
                } else {
                    Some(content_hash(&world.contents[*f]))
                });
            }
            Reply::Digested(hashes)
        }
        Request::Finished => Reply::Nothing,
    }
}

/// Runs the resolver over the world. With `link` set, every merge is
/// carried out on the records: each duplicate takes the survivor's identity.
fn run(world: &mut World, prefix_len: u64, link: bool) -> (Statistics, Vec<Merge>) {
    let mut totals = Statistics::new();
    let mut merges = Vec::new();
    let mut resolver = Resolver::new(&world.files, prefix_len, link);
    let mut reply = Reply::Nothing;
    let mut steps = 0;
    loop {
        let (next, step) = resolver.advance(reply);
        resolver = next;
        assert!(totals.try_add(&step.tally));
        assert_eq!(step.link, link);
        for merge in step.merges {
            if step.link {
                for d in &merge.duplicates {
                    world.links.push((merge.survivor, *d));
                    world.files[*d].identity = world.files[merge.survivor].identity;
                }
            }
            merges.push(merge);
        }
        if let Request::Finished = step.request {
            assert!(resolver.is_finished());
            break;
        }
        assert!(!resolver.is_finished());
        reply = answer(world, &step.request, prefix_len);
        steps += 1;
        assert!(steps < 1000);
    }
    (totals, merges)
}

#[test]
fn no_files_finish_at_once() {
    let mut w = world(&[]);
    let (stats, merges) = run(&mut w, 4096, true);
    assert!(merges.is_empty());
    assert_eq!(stats, Statistics::new());
}

#[test]
fn files_of_different_sizes_are_never_read() {
    let mut w = world(&[("a", 1, b"x"), ("b", 2, b"xx"), ("c", 3, b"xxx")]);
    let (stats, merges) = run(&mut w, 4096, true);
    assert!(merges.is_empty());
    assert!(w.compared.is_empty() && w.sampled.is_empty() && w.digested.is_empty());
    assert_eq!(stats.buckets, 0);
    assert_eq!(stats.bucket_files, 0);
}

#[test]
fn names_of_one_file_are_not_compared_and_count_as_saved() {
    let mut w = world(&[("a", 7, b"same bytes"), ("b", 7, b"same bytes")]);
    let (stats, merges) = run(&mut w, 4096, true);
    assert!(merges.is_empty());
    assert!(w.compared.is_empty());
    assert!(w.links.is_empty());
    assert_eq!(stats.buckets, 1);
    assert_eq!(stats.bucket_files, 2);
    assert_eq!(stats.fully_linked, 1);
    assert_eq!(stats.linked_bytes, 10);
    assert_eq!(stats.comparisons, 0);
    assert_eq!(stats.links, 0);
}

#[test]
fn a_linked_bucket_of_four_saves_three_sizes() {
    let mut w = world(&[
        ("a", 7, b"12345"),
        ("b", 7, b"12345"),
        ("c", 7, b"12345"),
        ("d", 7, b"12345"),
        ("e", 9, b"1234567"),
    ]);
    let (stats, merges) = run(&mut w, 4096, true);
    assert!(merges.is_empty());
    assert!(w.compared.is_empty() && w.sampled.is_empty() && w.digested.is_empty());
    assert_eq!(stats.fully_linked, 1);
    assert_eq!(stats.linked_bytes, 15);
    assert_eq!(stats.bucket_files, 4);
}

#[test]
fn two_equal_files_become_one() {
    let mut w = world(&[("a", 1, b"content"), ("b", 2, b"content")]);
    let (stats, merges) = run(&mut w, 4096, true);
    assert_eq!(w.compared, vec![(0, 1)]);
    assert_eq!(merges.len(), 1);
    assert_eq!(merges[0].survivor, 0);
    assert_eq!(merges[0].duplicates, vec![1]);
    assert_eq!(merges[0].size, 7);
    assert_eq!(w.links, vec![(0, 1)]);
    assert_eq!(w.files[0].identity, w.files[1].identity);
    assert_eq!(stats.pairs, 1);
    assert_eq!(stats.comparisons, 1);
    assert_eq!(stats.links, 1);
    assert_eq!(stats.merges, 1);
    assert_eq!(stats.merged_files, 1);
    assert_eq!(stats.saved_bytes, 7);
    assert_eq!(stats.linked_bytes, 0);
}

#[test]
fn two_equal_files_are_reported_without_linking() {
    let mut w = world(&[("a", 1, b"content"), ("b", 2, b"content")]);
    let (stats, merges) = run(&mut w, 4096, false);
    assert_eq!(merges.len(), 1);
    assert!(w.links.is_empty());
    assert_ne!(w.files[0].identity, w.files[1].identity);
    assert_eq!(stats.saved_bytes, 7);
}

#[test]
fn two_different_files_are_left_alone() {
    let mut w = world(&[("a", 1, b"content"), ("b", 2, b"CONTENT")]);
    let (stats, merges) = run(&mut w, 4096, true);
    assert_eq!(w.compared.len(), 1);
    assert!(merges.is_empty());
    assert!(w.links.is_empty());
    assert_eq!(stats.comparisons, 1);
    assert_eq!(stats.links, 0);
    assert_eq!(stats.saved_bytes, 0);
}

#[test]
fn an_unreadable_file_is_never_taken_for_equal() {
    let mut w = world(&[("a", 1, b"content"), ("b", 2, b"content")]);
    w.unreadable[0] = true;
    let (_, merges) = run(&mut w, 4096, true);
    assert!(merges.is_empty());
    assert!(w.links.is_empty());
}

#[test]
fn colliding_sample_hashes_alone_merge_nothing() {
    // Same first four bytes, so the sample hashes collide; different after.
    let mut w = world(&[("a", 1, b"headAAAA"), ("b", 2, b"headBBBB"), ("c", 3, b"tailCCCC")]);
    let (stats, merges) = run(&mut w, 4, true);
    assert_eq!(w.sampled.len(), 3);
    assert_eq!(w.compared.len(), 1);
    assert!(w.compared[0] == (0, 1) || w.compared[0] == (1, 0));
    assert!(w.digested.is_empty());
    assert!(merges.is_empty());
    assert!(w.links.is_empty());
    assert_eq!(stats.sample_hashes, 3);
    assert_eq!(stats.comparisons, 1);
}

#[test]
fn different_sample_hashes_spare_the_comparison() {
    let mut w = world(&[("a", 1, b"AAAAhead"), ("b", 2, b"BBBBhead"), ("c", 3, b"CCCChead")]);
    let (stats, merges) = run(&mut w, 4, true);
    assert_eq!(w.sampled.len(), 3);
    assert!(w.compared.is_empty());
    assert!(w.digested.is_empty());
    assert!(merges.is_empty());
    assert_eq!(stats.sample_hashes, 3);
}

#[test]
fn of_three_colliding_runs_only_the_equal_two_merge() {
    let mut w = world(&[("a", 1, b"headSAME"), ("b", 2, b"headODD!"), ("c", 3, b"headSAME")]);
    let (stats, merges) = run(&mut w, 4, true);
    assert_eq!(w.sampled.len(), 3);
    assert!(w.compared.is_empty());
    assert_eq!(w.digested.len(), 3);
    assert_eq!(merges.len(), 1);
    assert_eq!(merges[0].survivor, 0);
    assert_eq!(merges[0].duplicates, vec![2]);
    assert_eq!(w.links, vec![(0, 2)]);
    assert_eq!(w.files[1].identity, Identity::Known(2));
    assert_eq!(w.files[2].identity, Identity::Known(1));
    assert_eq!(stats.content_hashes, 3);
    assert_eq!(stats.content_hash_bytes, 24);
    assert_eq!(stats.merges, 1);
    assert_eq!(stats.links, 1);
    assert_eq!(stats.saved_bytes, 8);
}

#[test]
fn three_equal_runs_merge_into_the_longest() {
    let mut w = world(&[
        ("a", 1, b"all the same"),
        ("b", 2, b"all the same"),
        ("c", 2, b"all the same"),
        ("d", 3, b"all the same"),
    ]);
    let (stats, merges) = run(&mut w, 4096, true);
    assert_eq!(w.digested.len(), 3);
    assert_eq!(merges.len(), 2);
    assert_eq!(merges[0].survivor, 1);
    assert_eq!(merges[1].survivor, 1);
    let mut absorbed: Vec<usize> = merges.iter().flat_map(|m| m.duplicates.clone()).collect();
    absorbed.sort();
    assert_eq!(absorbed, vec![0, 3]);
    assert_eq!(stats.merges, 2);
    assert_eq!(stats.links, 2);
    assert_eq!(stats.saved_bytes, 24);
    for f in &w.files {
        assert_eq!(f.identity, Identity::Known(2));
    }
}

#[test]
fn the_shorter_run_is_absorbed_into_the_longer() {
    let mut w = world(&[
        ("s1", 20, b"payload"),
        ("s2", 20, b"payload"),
        ("l1", 10, b"payload"),
        ("l2", 10, b"payload"),
        ("l3", 10, b"payload"),
        ("l4", 10, b"payload"),
        ("l5", 10, b"payload"),
    ]);
    let (stats, merges) = run(&mut w, 4096, true);
    assert_eq!(w.compared.len(), 1);
    assert_eq!(merges.len(), 1);
    assert_eq!(merges[0].survivor, 2);
    assert_eq!(merges[0].duplicates, vec![0, 1]);
    assert_eq!(w.links, vec![(2, 0), (2, 1)]);
    assert_eq!(stats.links, 2);
    assert_eq!(stats.merged_files, 2);
    assert_eq!(stats.merges, 1);
    assert_eq!(stats.saved_bytes, 7);
    assert_eq!(stats.pairs, 0);
}

#[test]
fn the_longer_run_is_kept_wherever_it_stands() {
    let mut w = world(&[
        ("l1", 10, b"payload"),
        ("l2", 10, b"payload"),
        ("l3", 10, b"payload"),
        ("s1", 20, b"payload"),
    ]);
    let (_, merges) = run(&mut w, 4096, true);
    assert_eq!(merges.len(), 1);
    assert_eq!(merges[0].survivor, 0);
    assert_eq!(merges[0].duplicates, vec![3]);
}

#[test]
fn among_colliding_runs_the_longest_is_the_target() {
    // Three runs, so sample hashes are taken; "odd" drops out there, and the
    // pair that is left is compared with the longer run as the one to keep.
    let mut w = world(&[
        ("odd", 1, b"ODD!tail"),
        ("one", 5, b"headtail"),
        ("l1", 9, b"headtail"),
        ("l2", 9, b"headtail"),
    ]);
    let (stats, merges) = run(&mut w, 4, true);
    assert_eq!(w.compared, vec![(2, 1)]);
    assert_eq!(merges.len(), 1);
    assert_eq!(merges[0].survivor, 2);
    assert_eq!(merges[0].duplicates, vec![1]);
    assert_eq!(stats.links, 1);
}

#[test]
fn a_second_pass_finds_everything_linked() {
    let mut w = world(&[
        ("a", 1, b"all the same"),
        ("b", 2, b"all the same"),
        ("c", 3, b"all the same"),
        ("p", 4, b"pair"),
        ("q", 5, b"pair"),
        ("u", 6, b"unique!"),
    ]);
    let (first, merges) = run(&mut w, 4096, true);
    assert_eq!(merges.len(), 3);
    assert_eq!(first.links, 3);
    assert_eq!(first.saved_bytes, 12 + 12 + 4);
    w.compared.clear();
    w.sampled.clear();
    w.digested.clear();
    w.links.clear();
    let (second, merges) = run(&mut w, 4096, true);
    assert!(merges.is_empty());
    assert!(w.compared.is_empty() && w.sampled.is_empty() && w.digested.is_empty());
    assert!(w.links.is_empty());
    assert_eq!(second.links, 0);
    assert_eq!(second.saved_bytes, 0);
    assert_eq!(second.buckets, 2);
    assert_eq!(second.fully_linked, 2);
    assert_eq!(second.linked_bytes, 12 + 12 + 4);
}

#[test]
fn one_file_joins_a_run_of_two() {
    let mut files = Vec::new();
    let sizes_ids: [(&str, u64, u128); 4] = [("A", 100, 1), ("B", 100, 2), ("C", 100, 2), ("D", 50, 3)];
    let mut contents = Vec::new();
    for (name, size, id) in sizes_ids {
        files.push(FileRecord {
            dir_index: 0,
            identity: Identity::Known(id),
            size,
            name: name.to_string(),
        });
        contents.push(vec![0x5a; size as usize]);
    }
    let mut w = World {
        files,
        contents,
        unreadable: vec![false; 4],
        compared: Vec::new(),
        sampled: Vec::new(),
        digested: Vec::new(),
        links: Vec::new(),
    };
    let (stats, merges) = run(&mut w, 4096, true);
    assert_eq!(stats.buckets, 1);
    assert_eq!(stats.bucket_files, 3);
    assert_eq!(w.compared, vec![(1, 0)]);
    assert_eq!(merges.len(), 1);
    assert_eq!(merges[0].survivor, 1);
    assert_eq!(merges[0].duplicates, vec![0]);
    assert_eq!(merges[0].size, 100);
    assert_eq!(w.links, vec![(1, 0)]);
    assert_eq!(stats.links, 1);
    assert_eq!(stats.saved_bytes, 100);
    assert_eq!(stats.pairs, 0);
}

#[test]
fn files_without_identity_take_no_part() {
    let mut w = world(&[("a", 1, b"content"), ("b", 2, b"content"), ("c", 3, b"content")]);
    w.files[0].identity = Identity::Unknown;
    w.files[1].identity = Identity::Unknown;
    let (stats, merges) = run(&mut w, 4096, true);
    assert!(merges.is_empty());
    assert!(w.compared.is_empty() && w.sampled.is_empty() && w.digested.is_empty());
    assert_eq!(stats.buckets, 0);
    assert_eq!(stats.fully_linked, 0);
}

#[test]
fn pending_identities_take_no_part_either() {
    let mut w = world(&[("a", 1, b"content"), ("b", 2, b"content")]);
    w.files[0].identity = Identity::Pending;
    let (_, merges) = run(&mut w, 4096, true);
    assert!(merges.is_empty());
    assert!(w.compared.is_empty());
}

#[test]
fn failed_sample_hashes_match_nothing() {
    let mut w = world(&[("a", 1, b"content"), ("b", 2, b"content"), ("c", 3, b"content")]);
    w.unreadable = vec![true, true, true];
    let (stats, merges) = run(&mut w, 4096, true);
    assert_eq!(w.sampled.len(), 3);
    assert!(w.compared.is_empty());
    assert!(w.digested.is_empty());
    assert!(merges.is_empty());
    assert_eq!(stats.sample_hashes, 3);
}

#[test]
fn a_failed_content_hash_drops_only_that_run() {
    let mut files = world(&[
        ("a", 1, b"content"),
        ("b", 2, b"content"),
        ("c", 3, b"content"),
    ])
    .files;
    files[0].name = "a".to_string();
    let resolver = Resolver::new(&files, 4096, true);
    let (resolver, step) = resolver.advance(Reply::Nothing);
    assert!(matches!(step.request, Request::Sample { .. }));
    let (resolver, step) = resolver.advance(Reply::Sampled(vec![Some(5), Some(5), Some(5)]));
    match &step.request {
        Request::Digest { files } => assert_eq!(files, &vec![0, 1, 2]),
        _ => panic!("content hashes expected"),
    }
    let d = ContentHash { high: 1, low: 2 };
    let (resolver, step) = resolver.advance(Reply::Digested(vec![Some(d), None, Some(d)]));
    assert!(resolver.is_finished());
    assert_eq!(step.merges.len(), 1);
    assert_eq!(step.merges[0].survivor, 0);
    assert_eq!(step.merges[0].duplicates, vec![2]);
    assert_eq!(step.tally.content_hashes, 3);
    assert_eq!(step.tally.content_hash_bytes, 21);
}

#[test]
fn a_reply_of_the_wrong_kind_confirms_nothing() {
    let files = world(&[("a", 1, b"content"), ("b", 2, b"content")]).files;
    let resolver = Resolver::new(&files, 4096, true);
    let (resolver, step) = resolver.advance(Reply::Nothing);
    assert!(matches!(step.request, Request::Compare { left: 0, right: 1 }));
    let (resolver, step) = resolver.advance(Reply::Sampled(vec![Some(1), Some(1)]));
    assert!(step.merges.is_empty());
    assert!(matches!(step.request, Request::Finished));
    assert_eq!(step.tally.comparisons, 1);
    let (resolver, step) = resolver.advance(Reply::Compared(true));
    assert!(step.merges.is_empty());
    assert!(matches!(step.request, Request::Finished));
    assert!(resolver.is_finished());
}

#[test]
fn sample_hashes_of_the_wrong_number_count_as_none() {
    let files = world(&[("a", 1, b"content"), ("b", 2, b"content"), ("c", 3, b"content")]).files;
    let resolver = Resolver::new(&files, 4096, true);
    let (resolver, step) = resolver.advance(Reply::Nothing);
    match &step.request {
        Request::Sample { files, length } => {
            assert_eq!(files, &vec![0, 1, 2]);
            assert_eq!(*length, 7);
        }
        _ => panic!("sample hashes expected"),
    }
    let (resolver, step) = resolver.advance(Reply::Sampled(vec![Some(1), Some(1)]));
    assert!(matches!(step.request, Request::Finished));
    assert!(step.merges.is_empty());
    assert_eq!(step.tally.sample_hashes, 3);
    assert!(resolver.is_finished());
}

#[test]
fn the_sample_covers_no_more_than_the_prefix() {
    let files = world(&[("a", 1, b"0123456789"), ("b", 2, b"0123456789"), ("c", 3, b"0123456789")]).files;
    let (_, step) = Resolver::new(&files, 4, false).advance(Reply::Nothing);
    match step.request {
        Request::Sample { length, .. } => assert_eq!(length, 4),
        _ => panic!("sample hashes expected"),
    }
}

#[test]
fn pairs_and_groups_of_one_bucket_are_all_dealt_with() {
    // Ranked by sample hash: a group of three (hash 1), then a pair (hash 2).
    let files = world(&[
        ("a", 1, b"content"),
        ("b", 2, b"content"),
        ("c", 3, b"content"),
        ("d", 4, b"content"),
        ("e", 5, b"content"),
        ("f", 6, b"content"),
    ])
    .files;
    let (resolver, step) = Resolver::new(&files, 4096, true).advance(Reply::Nothing);
    assert!(matches!(step.request, Request::Sample { .. }));
    let samples = vec![Some(2), Some(1), Some(1), Some(3), Some(1), Some(2)];
    let (resolver, step) = resolver.advance(Reply::Sampled(samples));
    match &step.request {
        Request::Digest { files } => assert_eq!(files, &vec![1, 2, 4]),
        _ => panic!("content hashes expected"),
    }
    let x = ContentHash { high: 9, low: 9 };
    let y = ContentHash { high: 9, low: 8 };
    let (resolver, step) = resolver.advance(Reply::Digested(vec![Some(x), Some(y), Some(x)]));
    assert_eq!(step.merges.len(), 1);
    assert_eq!(step.merges[0].survivor, 1);
    assert_eq!(step.merges[0].duplicates, vec![4]);
    assert!(matches!(step.request, Request::Compare { left: 0, right: 5 }));
    let (resolver, step) = resolver.advance(Reply::Compared(true));
    assert_eq!(step.merges.len(), 1);
    assert_eq!(step.merges[0].survivor, 0);
    assert_eq!(step.merges[0].duplicates, vec![5]);
    assert!(matches!(step.request, Request::Finished));
    assert!(resolver.is_finished());
}

#[test]
fn buckets_are_taken_in_ascending_size() {
    let mut w = world(&[
        ("big1", 1, b"bigger content"),
        ("small1", 2, b"small"),
        ("big2", 3, b"bigger content"),
        ("small2", 4, b"small"),
    ]);
    let (stats, merges) = run(&mut w, 4096, true);
    assert_eq!(w.compared, vec![(1, 3), (0, 2)]);
    assert_eq!(merges.len(), 2);
    assert_eq!(stats.buckets, 2);
    assert_eq!(stats.pairs, 2);
    assert_eq!(stats.saved_bytes, 5 + 14);
}

#[test]
fn of_two_files_the_first_in_identity_order_stays() {
    // The record listed first has the larger identity, so it comes second.
    let mut w = world(&[("late", 9, b"content"), ("early", 3, b"content")]);
    let (stats, merges) = run(&mut w, 4096, true);
    assert_eq!(w.compared, vec![(1, 0)]);
    assert_eq!(merges.len(), 1);
    assert_eq!(merges[0].survivor, 1);
    assert_eq!(merges[0].duplicates, vec![0]);
    assert_eq!(w.links, vec![(1, 0)]);
    assert_eq!(w.files[0].identity, Identity::Known(3));
    assert_eq!(stats.links, 1);
    assert_eq!(stats.saved_bytes, 7);
}

#[test]
fn of_two_equally_long_runs_the_second_stays() {
    let mut w = world(&[
        ("a1", 1, b"content"),
        ("a2", 1, b"content"),
        ("b1", 2, b"content"),
        ("b2", 2, b"content"),
    ]);
    let (stats, merges) = run(&mut w, 4096, true);
    assert_eq!(w.compared, vec![(2, 0)]);
    assert_eq!(merges.len(), 1);
    assert_eq!(merges[0].survivor, 2);
    assert_eq!(merges[0].duplicates, vec![0, 1]);
    assert_eq!(stats.links, 2);
    assert_eq!(stats.pairs, 0);
}

#[test]
fn a_pair_and_a_group_of_one_bucket_are_both_dealt_with() {
    // By sample hash, three runs that differ later and two that are the same.
    let mut w = world(&[
        ("x", 1, b"aaaa....1"),
        ("y", 2, b"aaaa....2"),
        ("z", 3, b"aaaa....3"),
        ("p", 4, b"zzzz.same"),
        ("q", 5, b"zzzz.same"),
    ]);
    let (stats, merges) = run(&mut w, 4, true);
    assert_eq!(w.sampled.len(), 5);
    assert_eq!(w.digested.len(), 3);
    assert_eq!(w.compared, vec![(3, 4)]);
    assert_eq!(merges.len(), 1);
    assert_eq!(merges[0].survivor, 3);
    assert_eq!(merges[0].duplicates, vec![4]);
    assert_eq!(w.files[3].identity, w.files[4].identity);
    assert_eq!(stats.links, 1);
}
