use dux::largest::{track_large_file, LargeFiles};
use dux::pool::{combine, parts_fit, Phase, Pull, Step, Worker};
use dux::progress::Progress;
use dux::scan::{scan, Listed};
use dux::stats::{FileMeta, Stats};

fn file(path: &str, len: u64, extension: Option<&str>) -> Listed {
    Listed::File {
        path: path.to_string(),
        probe: Ok(FileMeta { len, is_file: true, extension: extension.map(|e| e.to_string()) }),
    }
}

fn directory(path: &str) -> Listed {
    Listed::Directory { path: path.to_string() }
}

#[test]
fn worker_scans_what_it_pulls() {
    let mut worker = Worker::new(true);
    assert_eq!(worker.phase(), Phase::Pulling);
    match worker.on_pull(Pull::Item("/r/sub".to_string()), false) {
        Step::Scan(path) => assert_eq!(path, "/r/sub"),
        _ => panic!("expected a scan"),
    }
    assert_eq!(worker.phase(), Phase::Scanning);
}

#[test]
fn worker_scans_even_when_told_the_walk_is_over() {
    let mut worker = Worker::new(true);
    assert!(matches!(worker.on_pull(Pull::Item("/r".to_string()), true), Step::Scan(_)));
    assert_eq!(worker.phase(), Phase::Scanning);
}

#[test]
fn worker_waits_when_time_runs_out() {
    let mut worker = Worker::new(false);
    assert!(matches!(worker.on_pull(Pull::Empty, false), Step::Wait));
    assert_eq!(worker.phase(), Phase::Pulling);
    assert!(matches!(worker.on_pull(Pull::Empty, false), Step::Wait));
    assert_eq!(worker.phase(), Phase::Pulling);
}

#[test]
fn worker_leaves_when_the_walk_is_over() {
    let mut worker = Worker::new(false);
    assert!(matches!(worker.on_pull(Pull::Empty, true), Step::Exit));
    assert_eq!(worker.phase(), Phase::Done);
}

#[test]
fn worker_leaves_when_the_queue_is_closed() {
    let mut worker = Worker::new(false);
    assert!(matches!(worker.on_pull(Pull::Closed, false), Step::Exit));
    assert_eq!(worker.phase(), Phase::Done);
    let (stats, files) = worker.finish();
    assert_eq!(stats.size(), 0);
    assert_eq!(stats.count(), 0);
    assert_eq!(files.len(), 0);
}

#[test]
fn worker_gathers_what_it_scans() {
    let mut worker = Worker::new(true);
    worker.on_pull(Pull::Item("/r/a".to_string()), false);
    let first = scan(
        "/r/a",
        Ok(vec![file("/r/a/x.txt", 10, Some("txt")), directory("/r/a/deep")]),
        true,
        true,
    );
    assert!(worker.can_absorb(&first));
    let (children, warnings) = worker.on_scanned(first);
    assert_eq!(children, vec!["/r/a/deep".to_string()]);
    assert!(warnings.is_empty());
    assert_eq!(worker.phase(), Phase::Pulling);

    worker.on_pull(Pull::Item("/r/a/deep".to_string()), false);
    let second = scan("/r/a/deep", Ok(vec![file("/r/a/deep/y.txt", 32, Some("txt"))]), true, true);
    let (children, _) = worker.on_scanned(second);
    assert!(children.is_empty());

    worker.on_pull(Pull::Closed, false);
    let (stats, files) = worker.finish();
    assert_eq!(stats.size(), 42);
    assert_eq!(stats.count(), 2);
    assert_eq!(stats.extension("txt"), Some((42, 2)));
    assert_eq!(
        files.into_sorted_vec(),
        vec![(32, "/r/a/deep/y.txt".to_string()), (10, "/r/a/x.txt".to_string())]
    );
}

#[test]
fn worker_tells_when_a_scan_would_overflow() {
    let mut worker = Worker::new(false);
    worker.on_pull(Pull::Item("/a".to_string()), false);
    worker.on_scanned(scan("/a", Ok(vec![file("/a/x", u64::MAX - 5, None)]), false, false));
    let small = scan("/b", Ok(vec![file("/b/y", 5, None)]), false, false);
    assert!(worker.can_absorb(&small));
    let large = scan("/c", Ok(vec![file("/c/z", 6, None)]), false, false);
    assert!(!worker.can_absorb(&large));
}

fn part(files: &[(u64, &str, &str)], track_ext: bool) -> (Stats, LargeFiles) {
    let mut stats = Stats::new(track_ext);
    let mut largest = LargeFiles::new();
    for (len, path, ext) in files {
        stats.fold_file(&FileMeta { len: *len, is_file: true, extension: Some(ext.to_string()) });
        track_large_file(&mut largest, path, *len);
    }
    (stats, largest)
}

#[test]
fn combine_sums_the_parts() {
    let parts = vec![
        part(&[(10, "/r/a.txt", "txt")], true),
        part(&[(20, "/r/s/b.txt", "txt"), (5, "/r/s/c.log", "log")], true),
        part(&[], true),
        part(&[(7, "/r/t/d.rs", "rs")], true),
    ];
    assert!(parts_fit(&parts));
    let (stats, files) = combine(parts, true);
    assert_eq!(stats.size(), 42);
    assert_eq!(stats.count(), 4);
    assert!(stats.track_ext());
    assert_eq!(stats.extension("txt"), Some((30, 2)));
    assert_eq!(stats.extension("log"), Some((5, 1)));
    assert_eq!(stats.extension("rs"), Some((7, 1)));
    assert_eq!(
        files.into_sorted_vec(),
        vec![
            (20, "/r/s/b.txt".to_string()),
            (10, "/r/a.txt".to_string()),
            (7, "/r/t/d.rs".to_string()),
            (5, "/r/s/c.log".to_string()),
        ]
    );
}

#[test]
fn combine_of_nothing_is_empty() {
    let (stats, files) = combine(Vec::new(), false);
    assert_eq!(stats.size(), 0);
    assert_eq!(stats.count(), 0);
    assert!(!stats.track_ext());
    assert_eq!(files.len(), 0);
}

#[test]
fn combine_takes_the_tracking_as_given() {
    let (stats, _) = combine(vec![part(&[(1, "a", "x")], true)], false);
    assert!(!stats.track_ext());
    assert_eq!(stats.extension("x"), Some((1, 1)));
}

#[test]
fn parts_fit_tells_when_the_totals_overflow() {
    let fine = vec![part(&[(u64::MAX - 1, "a", "x")], false), part(&[(1, "b", "x")], false)];
    assert!(parts_fit(&fine));
    let too_much = vec![part(&[(u64::MAX - 1, "a", "x")], false), part(&[(2, "b", "x")], false)];
    assert!(!parts_fit(&too_much));
}

fn tree() -> Vec<(&'static str, Vec<Listed>)> {
    vec![
        ("/r", vec![file("/r/a.txt", 10, Some("txt")), directory("/r/s"), directory("/r/t")]),
        ("/r/s", vec![file("/r/s/b.txt", 20, Some("txt")), directory("/r/s/u")]),
        ("/r/t", vec![file("/r/t/c.log", 5, Some("log")), file("/r/t/d", 100, None)]),
        ("/r/s/u", vec![file("/r/s/u/e.rs", 1, Some("rs"))]),
    ]
}

fn walk_with(workers: usize, turn: impl Fn(usize) -> usize) -> (Stats, LargeFiles) {
    let mut pool: Vec<Worker> = (0..workers + 1).map(|_| Worker::new(true)).collect();
    for (i, (dir, listing)) in tree().into_iter().enumerate() {
        let who = if i == 0 { 0 } else { 1 + turn(i) % workers.max(1) };
        let who = if workers == 0 { 0 } else { who };
        pool[who].on_pull(Pull::Item(dir.to_string()), false);
        pool[who].on_scanned(scan(dir, Ok(listing), true, true));
    }
    let parts: Vec<(Stats, LargeFiles)> = pool
        .into_iter()
        .map(|mut w| {
            w.on_pull(Pull::Closed, false);
            w.finish()
        })
        .collect();
    combine(parts, true)
}

#[test]
fn totals_are_the_same_for_any_number_of_workers() {
    let (alone, alone_files) = walk_with(0, |i| i);
    assert_eq!(alone.size(), 136);
    assert_eq!(alone.count(), 5);
    let expected_files = alone_files.into_sorted_vec();
    assert_eq!(expected_files[0], (100, "/r/t/d".to_string()));
    assert_eq!(expected_files.len(), 5);
    let mut expected_rows = alone.extensions();
    expected_rows.sort();
    for workers in 1..5 {
        for shift in 0..3 {
            let (stats, files) = walk_with(workers, |i| i * 7 + shift);
            assert_eq!(stats.size(), 136);
            assert_eq!(stats.count(), 5);
            let mut rows = stats.extensions();
            rows.sort();
            assert_eq!(rows, expected_rows);
            assert_eq!(files.into_sorted_vec(), expected_files);
        }
    }
}

#[test]
fn unreadable_subdirectory_costs_only_its_own_files() {
    let mut root = Worker::new(true);
    root.on_pull(Pull::Item("/r".to_string()), false);
    let (children, warnings) = root.on_scanned(scan(
        "/r",
        Ok(vec![file("/r/a.txt", 10, Some("txt")), directory("/r/locked"), directory("/r/open")]),
        true,
        true,
    ));
    assert_eq!(children.len(), 2);
    assert!(warnings.is_empty());

    root.on_pull(Pull::Item("/r/locked".to_string()), false);
    let (children, warnings) =
        root.on_scanned(scan("/r/locked", Err("Permission denied".to_string()), true, true));
    assert!(children.is_empty());
    assert_eq!(warnings.len(), 1);
    assert_eq!(warnings[0].message(), "Error reading /r/locked: Permission denied");

    root.on_pull(Pull::Item("/r/open".to_string()), false);
    root.on_scanned(scan(
        "/r/open",
        Ok(vec![file("/r/open/b.txt", 20, Some("txt")), file("/r/open/c.log", 5, Some("log"))]),
        true,
        true,
    ));
    root.on_pull(Pull::Closed, false);
    let (stats, _) = combine(vec![root.finish()], true);
    assert_eq!(stats.size(), 35);
    assert_eq!(stats.count(), 3);
}

#[test]
fn progress_follows_a_walk_to_its_end() {
    let mut progress = Progress::new();
    assert!(!progress.finished());
    assert!(!progress.can_pull());
    assert!(!progress.can_complete());

    assert!(progress.can_push(2));
    progress.pushed(2);
    progress.sealed();
    assert!(!progress.finished());
    assert!(!progress.can_push(1));

    assert!(progress.can_pull());
    progress.pulled();
    assert!(progress.can_push(1));
    progress.pushed(1);
    assert!(progress.can_complete());
    progress.completed();
    assert!(!progress.finished());

    progress.pulled();
    progress.pulled();
    assert!(!progress.can_pull());
    assert!(!progress.finished());
    progress.completed();
    assert!(!progress.finished());
    progress.completed();
    assert!(progress.finished());
    assert!(!progress.can_push(0));
    assert!(!progress.can_pull());
    assert!(!progress.can_complete());
}

#[test]
fn progress_is_not_over_while_the_dispatcher_seeds() {
    let mut progress = Progress::new();
    assert!(!progress.finished());
    progress.sealed();
    assert!(progress.finished());
}

#[test]
fn progress_refuses_a_count_that_overflows() {
    let mut progress = Progress::new();
    progress.pushed(usize::MAX);
    assert!(!progress.can_push(1));
    assert!(progress.can_push(0));
}
