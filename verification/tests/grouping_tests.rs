use hardlink_dedup::compare::ContentHash;
use hardlink_dedup::group::{find_bucket_end, split_runs, Run};
use hardlink_dedup::merge::{direction, first_file, merge_runs, tally_merges, Merge};
use hardlink_dedup::order::{arrange, sort_keys, Key};
use hardlink_dedup::rank::{merge_by_digest, rank_runs};
use hardlink_dedup::record::{catalog, unresolved, FileRecord, Identity};

fn record(size: u64, identity: Identity) -> FileRecord {
    FileRecord { dir_index: 0, identity, size, name: String::from("f") }
}

#[test]
fn sort_keys_orders_by_each_component_in_turn() {
    let mut keys: Vec<Key> = vec![(2, 0, 0), (1, 9, 1), (1, 3, 2), (1, 3, 3), (0, 7, 4)];
    sort_keys(&mut keys);
    assert_eq!(keys, vec![(0, 7, 4), (1, 3, 2), (1, 3, 3), (1, 9, 1), (2, 0, 0)]);
}

#[test]
fn sort_keys_keeps_every_key() {
    let mut keys: Vec<Key> = Vec::new();
    for i in 0..500usize {
        keys.push((((i * 7919) % 13) as u128, ((i * 104729) % 5) as u128, i));
    }
    let before = keys.clone();
    sort_keys(&mut keys);
    assert_eq!(keys.len(), before.len());
    for w in keys.windows(2) {
        assert!(w[0] < w[1]);
    }
    for k in &before {
        assert!(keys.contains(k));
    }
}

#[test]
fn arrange_leaves_out_missing_entries() {
    let wanted = vec![Some((5, 1)), None, Some((3, 2)), Some((5, 0)), None, Some((3, 2))];
    assert_eq!(arrange(&wanted), vec![(3, 2, 2), (3, 2, 5), (5, 0, 3), (5, 1, 0)]);
    assert_eq!(arrange(&vec![None, None]), Vec::<Key>::new());
    assert_eq!(arrange(&Vec::new()), Vec::<Key>::new());
}

#[test]
fn catalog_orders_by_size_then_identity_then_index() {
    let files = vec![
        record(30, Identity::Known(5)),
        record(10, Identity::Known(9)),
        record(30, Identity::Known(2)),
        record(10, Identity::Known(9)),
        record(30, Identity::Known(5)),
    ];
    assert_eq!(
        catalog(&files),
        vec![(10, 9, 1), (10, 9, 3), (30, 2, 2), (30, 5, 0), (30, 5, 4)]
    );
}

#[test]
fn catalog_leaves_out_files_without_identity() {
    let files = vec![
        record(10, Identity::Unknown),
        record(10, Identity::Known(0)),
        record(10, Identity::Pending),
        record(10, Identity::Unknown),
    ];
    assert_eq!(catalog(&files), vec![(10, 0, 1)]);
}

#[test]
fn resolve_settles_a_pending_identity_once() {
    let mut r = record(1, Identity::Pending);
    r.resolve(Some(42));
    assert_eq!(r.identity, Identity::Known(42));
    r.resolve(Some(43));
    assert_eq!(r.identity, Identity::Known(42));
    r.resolve(None);
    assert_eq!(r.identity, Identity::Known(42));
    let mut failed = record(1, Identity::Pending);
    failed.resolve(None);
    assert_eq!(failed.identity, Identity::Unknown);
    failed.resolve(Some(1));
    assert_eq!(failed.identity, Identity::Unknown);
    assert_eq!(failed.size, 1);
    assert_eq!(failed.name, "f");
}

#[test]
fn unresolved_names_pending_files_that_share_a_size() {
    let files = vec![
        record(10, Identity::Pending),
        record(20, Identity::Pending),
        record(10, Identity::Known(4)),
        record(30, Identity::Pending),
        record(30, Identity::Pending),
        record(40, Identity::Known(1)),
        record(40, Identity::Unknown),
    ];
    let mut wanted = unresolved(&files);
    wanted.sort();
    assert_eq!(wanted, vec![0, 3, 4]);
    assert_eq!(unresolved(&Vec::new()), Vec::<usize>::new());
}

#[test]
fn find_bucket_end_stops_where_the_size_changes() {
    let keys: Vec<Key> = vec![(1, 0, 0), (2, 0, 1), (2, 1, 2), (2, 1, 3), (5, 0, 4)];
    assert_eq!(find_bucket_end(&keys, 0), 1);
    assert_eq!(find_bucket_end(&keys, 1), 4);
    assert_eq!(find_bucket_end(&keys, 2), 4);
    assert_eq!(find_bucket_end(&keys, 4), 5);
}

#[test]
fn split_runs_partitions_a_bucket() {
    let keys: Vec<Key> =
        vec![(1, 0, 0), (2, 3, 1), (2, 4, 2), (2, 4, 3), (2, 4, 5), (2, 8, 4), (5, 0, 6)];
    assert_eq!(
        split_runs(&keys, 1, 6),
        vec![Run { first: 1, len: 1 }, Run { first: 2, len: 3 }, Run { first: 5, len: 1 }]
    );
    assert_eq!(split_runs(&keys, 2, 5), vec![Run { first: 2, len: 3 }]);
}

#[test]
fn direction_keeps_the_longer_run_and_the_second_of_equals() {
    let a = Run { first: 0, len: 5 };
    let b = Run { first: 5, len: 2 };
    assert_eq!(direction(a, b), (a, b));
    assert_eq!(direction(b, a), (a, b));
    let c = Run { first: 7, len: 2 };
    assert_eq!(direction(b, c), (c, b));
    assert_eq!(direction(c, b), (b, c));
}

#[test]
fn merge_runs_links_every_file_of_the_absorbed_run() {
    let keys: Vec<Key> = vec![(9, 1, 40), (9, 1, 41), (9, 2, 7), (9, 2, 8), (9, 2, 9)];
    let keep = Run { first: 2, len: 3 };
    let absorb = Run { first: 0, len: 2 };
    assert_eq!(first_file(&keys, keep), 7);
    let merge = merge_runs(&keys, keep, absorb);
    assert_eq!(merge.survivor, 7);
    assert_eq!(merge.duplicates, vec![40, 41]);
    assert_eq!(merge.size, 9);
}

#[test]
fn tally_merges_counts_runs_files_and_bytes() {
    let merges = vec![
        Merge { survivor: 0, duplicates: vec![1, 2, 3], size: 100 },
        Merge { survivor: 4, duplicates: vec![5], size: 7 },
    ];
    let t = tally_merges(&merges);
    assert_eq!(t.merges, 2);
    assert_eq!(t.merged_files, 4);
    assert_eq!(t.links, 4);
    assert_eq!(t.saved_bytes, 107);
    assert_eq!(t.comparisons, 0);
    assert_eq!(tally_merges(&Vec::new()).merges, 0);
}

#[test]
fn rank_runs_puts_the_longest_of_equal_hashes_first() {
    let runs = vec![
        Run { first: 0, len: 1 },
        Run { first: 1, len: 4 },
        Run { first: 5, len: 2 },
        Run { first: 7, len: 4 },
        Run { first: 11, len: 1 },
    ];
    let samples = vec![Some(8), Some(8), Some(3), Some(8), None];
    let order = rank_runs(&runs, &samples);
    let positions: Vec<usize> = order.iter().map(|k| k.2).collect();
    assert_eq!(positions, vec![2, 1, 3, 0]);
    assert_eq!(order[0].0, 3);
    assert_eq!(order[1].0, 8);
}

#[test]
fn rank_runs_treats_a_hash_of_zero_as_a_hash() {
    let runs = vec![Run { first: 0, len: 1 }, Run { first: 1, len: 1 }];
    let order = rank_runs(&runs, &vec![Some(0), Some(0)]);
    assert_eq!(order.len(), 2);
    assert_eq!(order[0].0, 0);
}

#[test]
fn merge_by_digest_joins_equal_hashes_only() {
    let keys: Vec<Key> = vec![(4, 1, 10), (4, 2, 11), (4, 3, 12), (4, 4, 13), (4, 5, 14)];
    let group: Vec<Run> = (0..5).map(|i| Run { first: i, len: 1 }).collect();
    let x = ContentHash { high: 1, low: 1 };
    let y = ContentHash { high: 0, low: 99 };
    let z = ContentHash { high: 1, low: 0 };
    let merges = merge_by_digest(&keys, &group, &vec![Some(x), Some(y), Some(x), Some(z), Some(y)]);
    assert_eq!(merges.len(), 2);
    // Ordered by hash: y comes before x.
    assert_eq!(merges[0].survivor, 11);
    assert_eq!(merges[0].duplicates, vec![14]);
    assert_eq!(merges[1].survivor, 10);
    assert_eq!(merges[1].duplicates, vec![12]);
}

#[test]
fn merge_by_digest_merges_all_of_a_stretch_into_its_first() {
    let keys: Vec<Key> = vec![(4, 1, 10), (4, 2, 11), (4, 2, 15), (4, 3, 12)];
    let group = vec![Run { first: 1, len: 2 }, Run { first: 0, len: 1 }, Run { first: 3, len: 1 }];
    let x = ContentHash { high: 7, low: 7 };
    let merges = merge_by_digest(&keys, &group, &vec![Some(x), Some(x), Some(x)]);
    assert_eq!(merges.len(), 2);
    assert_eq!(merges[0].survivor, 11);
    assert_eq!(merges[0].duplicates, vec![10]);
    assert_eq!(merges[1].survivor, 11);
    assert_eq!(merges[1].duplicates, vec![12]);
}

#[test]
fn merge_by_digest_leaves_runs_without_hash_alone() {
    let keys: Vec<Key> = vec![(4, 1, 10), (4, 2, 11), (4, 3, 12)];
    let group: Vec<Run> = (0..3).map(|i| Run { first: i, len: 1 }).collect();
    assert!(merge_by_digest(&keys, &group, &vec![None, None, None]).is_empty());
    let x = ContentHash { high: 7, low: 7 };
    assert!(merge_by_digest(&keys, &group, &vec![Some(x), None, None]).is_empty());
}
