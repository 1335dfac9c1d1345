use dux::classify::{classify_path, refusal, PathFacts, PathType};
use dux::errors::ScanError;
use dux::scan::{entry_kind, listing_fits, scan, EntryKind, Listed};
use dux::stats::FileMeta;

fn file(path: &str, len: u64, extension: Option<&str>) -> Listed {
    Listed::File {
        path: path.to_string(),
        probe: Ok(FileMeta { len, is_file: true, extension: extension.map(|e| e.to_string()) }),
    }
}

fn unreadable(path: &str, reason: &str) -> Listed {
    Listed::File { path: path.to_string(), probe: Err(reason.to_string()) }
}

fn directory(path: &str) -> Listed {
    Listed::Directory { path: path.to_string() }
}

#[test]
fn classify_tests_existence_first() {
    let facts = |exists, is_file, is_dir| PathFacts { exists, is_file, is_dir };
    assert_eq!(classify_path(facts(false, false, false)), PathType::NotFound);
    assert_eq!(classify_path(facts(false, true, true)), PathType::NotFound);
    assert_eq!(classify_path(facts(true, true, false)), PathType::File);
    assert_eq!(classify_path(facts(true, true, true)), PathType::File);
    assert_eq!(classify_path(facts(true, false, true)), PathType::Directory);
    assert_eq!(classify_path(facts(true, false, false)), PathType::Unknown);
}

#[test]
fn nonexistent_path_gives_only_an_error() {
    let kind = classify_path(PathFacts { exists: false, is_file: false, is_dir: false });
    assert_eq!(kind, PathType::NotFound);
    let error = refusal(kind, "/no/such/place").expect("nothing to scan");
    assert!(matches!(&error, ScanError::PathNotFound { path } if path == "/no/such/place"));
    assert!(error.is_fatal());
    assert_eq!(error.message(), "Invalid path: /no/such/place");
}

#[test]
fn unsupported_target_is_refused() {
    let kind = classify_path(PathFacts { exists: true, is_file: false, is_dir: false });
    let error = refusal(kind, "/dev/null").expect("nothing to scan");
    assert!(matches!(&error, ScanError::UnsupportedPathType { path } if path == "/dev/null"));
    assert_eq!(error.message(), "Unknown type /dev/null");
}

#[test]
fn files_and_directories_are_not_refused() {
    assert!(refusal(PathType::File, "/r/a").is_none());
    assert!(refusal(PathType::Directory, "/r").is_none());
}

#[test]
fn every_error_has_its_message() {
    let unsupported = ScanError::UnsupportedPathType { path: "/dev/null".to_string() };
    assert!(unsupported.is_fatal());
    assert_eq!(unsupported.message(), "Unknown type /dev/null");

    let directory = ScanError::DirectoryReadError {
        path: "/r/locked".to_string(),
        reason: "Permission denied (os error 13)".to_string(),
    };
    assert!(!directory.is_fatal());
    assert_eq!(
        directory.message(),
        "Error reading /r/locked: Permission denied (os error 13)"
    );

    let metadata = ScanError::FileMetadataError {
        path: "/r/a".to_string(),
        reason: "No such file or directory (os error 2)".to_string(),
    };
    assert!(!metadata.is_fatal());
    assert_eq!(
        metadata.message(),
        "Error reading file: No such file or directory (os error 2)"
    );
}

#[test]
fn empty_directory() {
    let found = scan("/r", Ok(Vec::new()), true, true);
    assert_eq!(found.stats.size(), 0);
    assert_eq!(found.stats.count(), 0);
    assert!(found.stats.extensions().is_empty());
    assert_eq!(found.largest.len(), 0);
    assert!(found.children.is_empty());
    assert!(found.warnings.is_empty());
}

#[test]
fn scan_folds_files_and_hands_directories_back() {
    let listing = vec![
        file("/r/a.txt", 10, Some("txt")),
        directory("/r/sub"),
        file("/r/b.txt", 20, Some("txt")),
        Listed::Other { path: "/r/socket".to_string() },
        file("/r/c.log", 5, Some("log")),
        directory("/r/other"),
    ];
    assert!(listing_fits(&listing));
    let found = scan("/r", Ok(listing), true, true);
    assert_eq!(found.stats.size(), 35);
    assert_eq!(found.stats.count(), 3);
    assert_eq!(found.stats.extension("txt"), Some((30, 2)));
    assert_eq!(found.stats.extension("log"), Some((5, 1)));
    assert_eq!(found.children, vec!["/r/sub".to_string(), "/r/other".to_string()]);
    assert!(found.warnings.is_empty());
    assert_eq!(
        found.largest.into_sorted_vec(),
        vec![
            (20, "/r/b.txt".to_string()),
            (10, "/r/a.txt".to_string()),
            (5, "/r/c.log".to_string())
        ]
    );
}

#[test]
fn scan_without_tracking_keeps_totals_only() {
    let listing = vec![file("/r/a.txt", 10, Some("txt")), file("/r/b", 1, None)];
    let found = scan("/r", Ok(listing), false, false);
    assert_eq!(found.stats.size(), 11);
    assert_eq!(found.stats.count(), 2);
    assert!(!found.stats.track_ext());
    assert!(found.stats.extensions().is_empty());
    assert_eq!(found.largest.len(), 0);
}

#[test]
fn scan_skips_a_file_whose_metadata_is_missing() {
    let listing = vec![
        file("/r/a.txt", 10, Some("txt")),
        unreadable("/r/b.txt", "Permission denied"),
        file("/r/c.txt", 30, Some("txt")),
        unreadable("/r/d.txt", "Gone"),
    ];
    let found = scan("/r", Ok(listing), true, true);
    assert_eq!(found.stats.size(), 40);
    assert_eq!(found.stats.count(), 2);
    assert_eq!(found.largest.len(), 2);
    assert_eq!(found.warnings.len(), 2);
    assert_eq!(found.warnings[0].message(), "Error reading file: Permission denied");
    assert_eq!(found.warnings[1].message(), "Error reading file: Gone");
    match &found.warnings[1] {
        ScanError::FileMetadataError { path, reason } => {
            assert_eq!(path, "/r/d.txt");
            assert_eq!(reason, "Gone");
        }
        _ => panic!("expected a metadata error"),
    }
}

#[test]
fn scan_of_an_unreadable_directory_is_empty_with_a_warning() {
    let found = scan("/r/locked", Err("Permission denied".to_string()), true, true);
    assert_eq!(found.stats.size(), 0);
    assert_eq!(found.stats.count(), 0);
    assert!(found.stats.track_ext());
    assert_eq!(found.largest.len(), 0);
    assert!(found.children.is_empty());
    assert_eq!(found.warnings.len(), 1);
    assert!(!found.warnings[0].is_fatal());
    assert_eq!(found.warnings[0].message(), "Error reading /r/locked: Permission denied");
}

#[test]
fn scan_keeps_the_ten_largest_files() {
    let listing: Vec<Listed> =
        (1..=15u64).map(|i| file(&format!("/r/f{:02}", i), i * 100, None)).collect();
    let found = scan("/r", Ok(listing), false, true);
    let sizes: Vec<u64> = found.largest.into_sorted_vec().into_iter().map(|e| e.0).collect();
    assert_eq!(sizes, vec![1500, 1400, 1300, 1200, 1100, 1000, 900, 800, 700, 600]);
    assert_eq!(found.stats.size(), 12000);
    assert_eq!(found.stats.count(), 15);
}

#[test]
fn listing_fits_tells_when_the_bytes_overflow() {
    let fine = vec![file("a", u64::MAX - 1, None), directory("d"), file("b", 1, None)];
    assert!(listing_fits(&fine));
    let too_much = vec![file("a", u64::MAX - 1, None), file("b", 1, None), file("c", 1, None)];
    assert!(!listing_fits(&too_much));
    let unread = vec![file("a", u64::MAX, None), unreadable("b", "x")];
    assert!(listing_fits(&unread));
    assert!(listing_fits(&Vec::new()));
}

#[test]
fn entry_kind_tests_file_first() {
    assert_eq!(entry_kind(true, false), EntryKind::File);
    assert_eq!(entry_kind(true, true), EntryKind::File);
    assert_eq!(entry_kind(false, true), EntryKind::Directory);
    assert_eq!(entry_kind(false, false), EntryKind::Other);
}
