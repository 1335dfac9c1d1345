use dux::errors::ScanError;
use dux::stats::{FileMeta, Stats};

fn file(len: u64, extension: Option<&str>) -> FileMeta {
    FileMeta {
        len,
        is_file: true,
        extension: extension.map(|e| e.to_string()),
    }
}

#[test]
fn new_stats_are_zero() {
    let stats = Stats::new(true);
    assert_eq!(stats.size(), 0);
    assert_eq!(stats.count(), 0);
    assert!(stats.track_ext());
    assert!(stats.extensions().is_empty());
    assert!(!Stats::new(false).track_ext());
}

#[test]
fn from_file_counts_one_file_of_its_length() {
    let stats = Stats::from_file("/r/a.txt", Ok(file(1234, Some("txt"))), true).unwrap();
    assert_eq!(stats.size(), 1234);
    assert_eq!(stats.count(), 1);
    assert_eq!(stats.extension("txt"), Some((1234, 1)));
    assert_eq!(stats.extension("log"), None);
}

#[test]
fn from_file_without_tracking_records_no_extension() {
    let stats = Stats::from_file("/r/a.txt", Ok(file(10, Some("txt"))), false).unwrap();
    assert_eq!(stats.size(), 10);
    assert_eq!(stats.count(), 1);
    assert_eq!(stats.extension("txt"), None);
}

#[test]
fn from_file_of_something_else_records_no_extension() {
    let meta = FileMeta { len: 4096, is_file: false, extension: Some("d".to_string()) };
    let stats = Stats::from_file("/r/x.d", Ok(meta), true).unwrap();
    assert_eq!(stats.size(), 4096);
    assert_eq!(stats.count(), 1);
    assert!(stats.extensions().is_empty());
}

#[test]
fn from_file_fails_when_the_metadata_is_missing() {
    let made = Stats::from_file("/r/gone", Err("No such file".to_string()), true);
    match made {
        Err(ScanError::FileMetadataError { path, reason }) => {
            assert_eq!(path, "/r/gone");
            assert_eq!(reason, "No such file");
        }
        _ => panic!("expected a metadata error"),
    }
}

#[test]
fn add_file_folds_files_in() {
    let mut stats = Stats::new(true);
    let added = stats.add_file("/r/a.txt", Ok(file(10, Some("txt")))).unwrap();
    assert_eq!(added.len, 10);
    stats.add_file("/r/b.txt", Ok(file(20, Some("txt")))).unwrap();
    stats.add_file("/r/c.log", Ok(file(5, Some("log")))).unwrap();
    stats.add_file("/r/README", Ok(file(7, None))).unwrap();
    assert_eq!(stats.size(), 42);
    assert_eq!(stats.count(), 4);
    assert_eq!(stats.extension("txt"), Some((30, 2)));
    assert_eq!(stats.extension("log"), Some((5, 1)));
    assert_eq!(stats.extensions().len(), 2);
}

#[test]
fn add_file_leaves_the_totals_alone_on_failure() {
    let mut stats = Stats::new(true);
    stats.add_file("/r/a.txt", Ok(file(10, Some("txt")))).unwrap();
    let failed = stats.add_file("/r/b.txt", Err("Permission denied".to_string()));
    match failed {
        Err(ScanError::FileMetadataError { path, reason }) => {
            assert_eq!(path, "/r/b.txt");
            assert_eq!(reason, "Permission denied");
        }
        _ => panic!("expected a metadata error"),
    }
    assert_eq!(stats.size(), 10);
    assert_eq!(stats.count(), 1);
    assert_eq!(stats.extension("txt"), Some((10, 1)));
}

#[test]
fn extension_aggregation() {
    let mut stats = Stats::new(true);
    stats.fold_file(&file(10, Some("txt")));
    stats.fold_file(&file(20, Some("txt")));
    stats.fold_file(&file(5, Some("log")));
    assert_eq!(stats.size(), 35);
    assert_eq!(stats.count(), 3);
    assert_eq!(
        stats.extensions(),
        vec![("txt".to_string(), 30, 2), ("log".to_string(), 5, 1)]
    );
}

#[test]
fn extensions_come_heaviest_first() {
    let mut stats = Stats::new(true);
    stats.fold_file(&file(5, Some("a")));
    stats.fold_file(&file(50, Some("b")));
    stats.fold_file(&file(20, Some("c")));
    stats.fold_file(&file(10, Some("d")));
    stats.fold_file(&file(10, Some("d")));
    stats.fold_file(&file(20, Some("e")));
    stats.fold_file(&file(0, Some("e")));
    let rows = stats.extensions();
    assert_eq!(
        rows,
        vec![
            ("b".to_string(), 50, 1),
            ("d".to_string(), 20, 2),
            ("e".to_string(), 20, 2),
            ("c".to_string(), 20, 1),
            ("a".to_string(), 5, 1),
        ]
    );
}

#[test]
fn an_empty_extension_is_an_extension() {
    let mut stats = Stats::new(true);
    stats.fold_file(&file(3, Some("")));
    assert_eq!(stats.extension(""), Some((3, 1)));
}

fn sample(seed: u64, track_ext: bool) -> Stats {
    let mut stats = Stats::new(track_ext);
    for i in 0..5u64 {
        let ext = ["txt", "log", "rs", "md"][((seed + i) % 4) as usize];
        stats.fold_file(&file(seed * 100 + i, Some(ext)));
    }
    stats
}

fn summary(stats: &Stats) -> (u64, u64, Vec<(String, u64, u64)>) {
    let mut rows = stats.extensions();
    rows.sort();
    (stats.size(), stats.count(), rows)
}

#[test]
fn add_assign_sums_totals_and_extensions() {
    let mut left = Stats::new(true);
    left.fold_file(&file(10, Some("txt")));
    left.fold_file(&file(1, Some("rs")));
    let mut right = Stats::new(true);
    right.fold_file(&file(20, Some("txt")));
    right.fold_file(&file(5, Some("log")));
    left.add_assign(right);
    assert_eq!(left.size(), 36);
    assert_eq!(left.count(), 4);
    assert_eq!(left.extension("txt"), Some((30, 2)));
    assert_eq!(left.extension("rs"), Some((1, 1)));
    assert_eq!(left.extension("log"), Some((5, 1)));
    assert_eq!(left.extensions().len(), 3);
}

#[test]
fn add_assign_keeps_the_tracking_of_the_left_side() {
    let mut left = Stats::new(false);
    left.add_assign(sample(1, true));
    assert!(!left.track_ext());
    assert_eq!(left.extensions().len(), 4);
    let mut other = Stats::new(true);
    other.add_assign(sample(1, false));
    assert!(other.track_ext());
    assert!(other.extensions().is_empty());
}

#[test]
fn merge_is_associative_on_examples() {
    let mut ab = sample(1, true);
    ab.add_assign(sample(2, true));
    ab.add_assign(sample(3, true));

    let mut bc = sample(2, true);
    bc.add_assign(sample(3, true));
    let mut a_bc = sample(1, true);
    a_bc.add_assign(bc);

    assert_eq!(summary(&ab), summary(&a_bc));
    assert_eq!(ab.size(), 100 * 5 + 200 * 5 + 300 * 5 + 3 * 10);
    assert_eq!(ab.count(), 15);
}

#[test]
fn merge_is_commutative_on_examples() {
    let mut ab = sample(4, true);
    ab.add_assign(sample(9, true));
    let mut ba = sample(9, true);
    ba.add_assign(sample(4, true));
    assert_eq!(summary(&ab), summary(&ba));
}

#[test]
fn sum_is_the_same_in_any_order_and_grouping() {
    let forward = vec![sample(1, true), sample(2, true), sample(3, true), sample(4, true)];
    let backward = vec![sample(4, true), sample(3, true), sample(2, true), sample(1, true)];
    let total = Stats::sum(&forward);
    assert_eq!(summary(&total), summary(&Stats::sum(&backward)));

    let mut first = sample(1, true);
    first.add_assign(sample(3, true));
    let mut second = sample(4, true);
    second.add_assign(sample(2, true));
    assert_eq!(summary(&total), summary(&Stats::sum(&vec![first, second])));
    assert_eq!(total.count(), 20);
    assert_eq!(total.size(), 1000 * 5 + 4 * 10);
    assert!(!total.track_ext());
}

#[test]
fn sum_of_nothing_is_zero() {
    let total = Stats::sum(&Vec::new());
    assert_eq!(summary(&total), (0, 0, Vec::new()));
}

#[test]
fn sum_of_single_files_is_the_fold_of_the_files() {
    let files = [(10u64, "txt"), (20, "txt"), (5, "log"), (7, "rs")];
    let mut folded = Stats::new(true);
    let mut parts = Vec::new();
    for (len, ext) in files {
        folded.fold_file(&file(len, Some(ext)));
        parts.push(Stats::from_file("f", Ok(file(len, Some(ext))), true).unwrap());
    }
    assert_eq!(summary(&Stats::sum(&parts)), summary(&folded));
}

#[test]
fn clone_copies_everything() {
    let stats = sample(6, true);
    let copy = stats.clone();
    assert_eq!(summary(&copy), summary(&stats));
    assert_eq!(copy.track_ext(), stats.track_ext());
    assert!(!sample(6, false).clone().track_ext());
}

#[test]
fn with_track_ext_changes_only_the_tracking() {
    let stats = sample(2, false).with_track_ext(true);
    assert!(stats.track_ext());
    assert_eq!(stats.size(), 200 * 5 + 10);
    assert_eq!(stats.count(), 5);
}

#[test]
fn totals_reach_the_largest_number() {
    let mut stats = Stats::new(true);
    stats.fold_file(&file(u64::MAX - 1, Some("big")));
    stats.fold_file(&file(1, Some("big")));
    assert_eq!(stats.size(), u64::MAX);
    assert_eq!(stats.extension("big"), Some((u64::MAX, 2)));
}

#[test]
fn single_file_target() {
    let meta = FileMeta { len: 4321, is_file: true, extension: Some("bin".to_string()) };
    let stats = Stats::from_file("/data/blob.bin", Ok(meta), false).unwrap();
    assert_eq!(stats.size(), 4321);
    assert_eq!(stats.count(), 1);
}

#[test]
fn default_stats_track_nothing() {
    let stats = Stats::default();
    assert_eq!(stats.size(), 0);
    assert_eq!(stats.count(), 0);
    assert!(!stats.track_ext());
}
