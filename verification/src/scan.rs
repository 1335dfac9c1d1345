//! The scan of one directory, from its listing.

use crate::errors::{is_directory_error, is_metadata_error, ScanError};
use crate::largest::{track_large_file, LargeFiles, LARGEST_FILES};
use crate::merge_laws::{lemma_merge_associative, lemma_merge_empty, lemma_with_file_is_merge};
use crate::order::Entry;
use crate::stats::{
    empty_stats, file_stats, merge_stats, sum_stats, with_file, FileMeta, Stats, StatsView,
};
use crate::topk::{lemma_offer_after_cut, lemma_top_k_of_retained, top_k};
use vstd::prelude::*;

verus! {

/// One entry of a directory listing, with what the caller found out about it.
#[derive(Debug)]
pub enum Listed {
    /// A regular file, with its metadata or the reason why there is none.
    File { path: String, probe: Result<FileMeta, String> },
    /// A directory, to be scanned in its turn.
    Directory { path: String },
    /// Anything else. It is passed over.
    Other { path: String },
}

/// What an entry of a directory is to a scan.
#[derive(Clone, Copy, Debug, PartialEq, Eq, Structural)]
pub enum EntryKind {
    File,
    Directory,
    Other,
}

/// The kind of an entry: a regular file if it is one, else a directory if it
/// is one, else something that a scan passes over.
pub fn entry_kind(is_file: bool, is_dir: bool) -> (kind: EntryKind)
    ensures
        kind == if is_file {
            EntryKind::File
        } else if is_dir {
            EntryKind::Directory
        } else {
            EntryKind::Other
        },
{
    if is_file {
        EntryKind::File
    } else if is_dir {
        EntryKind::Directory
    } else {
        EntryKind::Other
    }
}

/// What the scan of one directory gives.
pub struct Scan {
    /// The totals over the files directly in the directory.
    pub stats: Stats,
    /// The largest of those files, where they are tracked.
    pub largest: LargeFiles,
    /// The directories directly in the directory, in the order of the listing.
    pub children: Vec<String>,
    /// One error for each file or directory that could not be read.
    pub warnings: Vec<ScanError>,
}

/// The totals over the files of a listing whose metadata was read.
pub open spec fn scanned_stats(entries: Seq<Listed>, track_ext: bool) -> StatsView
    decreases entries.len(),
{
    if entries.len() == 0 {
        empty_stats(track_ext)
    } else {
        let before = scanned_stats(entries.drop_last(), track_ext);
        match entries.last() {
            Listed::File { path, probe: Ok(meta) } => with_file(before, meta),
            _ => before,
        }
    }
}

/// The files of a listing whose metadata was read, as (size, path), in the
/// order of the listing.
pub open spec fn scanned_files(entries: Seq<Listed>) -> Seq<Entry>
    decreases entries.len(),
{
    if entries.len() == 0 {
        Seq::empty()
    } else {
        let before = scanned_files(entries.drop_last());
        match entries.last() {
            Listed::File { path, probe: Ok(meta) } => before.push((meta.len, path@)),
            _ => before,
        }
    }
}

/// The paths of the directories of a listing, in its order.
pub open spec fn scanned_children(entries: Seq<Listed>) -> Seq<Seq<char>>
    decreases entries.len(),
{
    if entries.len() == 0 {
        Seq::empty()
    } else {
        let before = scanned_children(entries.drop_last());
        match entries.last() {
            Listed::Directory { path } => before.push(path@),
            _ => before,
        }
    }
}

/// The files of a listing whose metadata was not read, each as its path and
/// the reason, in the order of the listing.
pub open spec fn scanned_failures(entries: Seq<Listed>) -> Seq<(Seq<char>, Seq<char>)>
    decreases entries.len(),
{
    if entries.len() == 0 {
        Seq::empty()
    } else {
        let before = scanned_failures(entries.drop_last());
        match entries.last() {
            Listed::File { path, probe: Err(reason) } => before.push((path@, reason@)),
            _ => before,
        }
    }
}

/// What a vector of paths stands for.
pub open spec fn paths_view(paths: Seq<String>) -> Seq<Seq<char>> {
    Seq::new(paths.len(), |i: int| paths[i]@)
}

/// Whether `warnings` reports the `failures`, one metadata error for each
/// and in their order.
pub open spec fn reports_failures(
    warnings: Seq<ScanError>,
    failures: Seq<(Seq<char>, Seq<char>)>,
) -> bool {
    &&& warnings.len() == failures.len()
    &&& forall|i: int|
        0 <= i < warnings.len() ==> is_metadata_error(
            #[trigger] warnings[i],
            failures[i].0,
            failures[i].1,
        )
}

/// The bytes of the files of a listing whose metadata was read.
pub open spec fn listed_bytes(entries: Seq<Listed>) -> nat
    decreases entries.len(),
{
    if entries.len() == 0 {
        0
    } else {
        let before = listed_bytes(entries.drop_last());
        match entries.last() {
            Listed::File { path, probe: Ok(meta) } => before + meta.len as nat,
            _ => before,
        }
    }
}

/// The totals of a listing hold the bytes of its files and no more files
/// than it has entries, and track extensions as asked.
pub proof fn lemma_scanned_totals(entries: Seq<Listed>, track_ext: bool)
    ensures
        scanned_stats(entries, track_ext).size == listed_bytes(entries),
        scanned_stats(entries, track_ext).count <= entries.len(),
        scanned_stats(entries, track_ext).track_ext == track_ext,
    decreases entries.len(),
{
    if entries.len() > 0 {
        lemma_scanned_totals(entries.drop_last(), track_ext);
    }
}

/// The bytes of the first entries are no more than those of all.
pub proof fn lemma_listed_bytes_grow(entries: Seq<Listed>, n: int)
    requires
        0 <= n <= entries.len(),
    ensures
        listed_bytes(entries.take(n)) <= listed_bytes(entries),
    decreases entries.len() - n,
{
    if n == entries.len() {
        assert(entries.take(n) =~= entries);
    } else {
        lemma_listed_bytes_grow(entries, n + 1);
        assert(entries.take(n + 1).drop_last() =~= entries.take(n));
    }
}

/// The totals over each file of a listing whose metadata was read, taken by
/// itself, in the order of the listing.
pub open spec fn file_parts(entries: Seq<Listed>, track_ext: bool) -> Seq<StatsView>
    decreases entries.len(),
{
    if entries.len() == 0 {
        Seq::empty()
    } else {
        let before = file_parts(entries.drop_last(), track_ext);
        match entries.last() {
            Listed::File { path, probe: Ok(meta) } => before.push(file_stats(meta, track_ext)),
            _ => before,
        }
    }
}

/// The totals of a listing are the sum of the totals of its files.
pub proof fn lemma_scan_is_sum(entries: Seq<Listed>, track_ext: bool)
    ensures
        scanned_stats(entries, track_ext) == (StatsView {
            track_ext,
            ..sum_stats(file_parts(entries, track_ext))
        }),
    decreases entries.len(),
{
    if entries.len() > 0 {
        let fewer = entries.drop_last();
        lemma_scan_is_sum(fewer, track_ext);
        match entries.last() {
            Listed::File { path, probe: Ok(meta) } => {
                let parts = file_parts(fewer, track_ext);
                lemma_with_file_is_merge(scanned_stats(fewer, track_ext), meta);
                assert(parts.push(file_stats(meta, track_ext)).drop_last() =~= parts);
            },
            _ => {},
        }
    }
}

/// The totals of two listings taken together are the merge of their totals.
pub proof fn lemma_scan_concat(a: Seq<Listed>, b: Seq<Listed>, track_ext: bool)
    ensures
        scanned_stats(a + b, track_ext) == merge_stats(
            scanned_stats(a, track_ext),
            scanned_stats(b, track_ext),
        ),
    decreases b.len(),
{
    lemma_scanned_totals(a, track_ext);
    if b.len() == 0 {
        lemma_merge_empty(scanned_stats(a, track_ext), track_ext);
    } else {
        lemma_scan_concat(a, b.drop_last(), track_ext);
        assert((a + b).drop_last() =~= a + b.drop_last());
        match b.last() {
            Listed::File { path, probe: Ok(meta) } => {
                let sa = scanned_stats(a, track_ext);
                let sb = scanned_stats(b.drop_last(), track_ext);
                lemma_scanned_totals(b.drop_last(), track_ext);
                lemma_with_file_is_merge(merge_stats(sa, sb), meta);
                lemma_with_file_is_merge(sb, meta);
                lemma_merge_associative(sa, sb, file_stats(meta, track_ext));
            },
            _ => {},
        }
    }
}

/// Whether the bytes of the files of a listing can be summed in a `u64`.
pub fn listing_fits(entries: &Vec<Listed>) -> (fits: bool)
    ensures
        fits == (listed_bytes(entries@) <= u64::MAX),
{
    let mut total: u64 = 0;
    let mut i: usize = 0;
    while i < entries.len()
        invariant
            i <= entries.len(),
            total == listed_bytes(entries@.take(i as int)),
        decreases entries.len() - i,
    {
        proof {
            assert(entries@.take(i + 1).drop_last() =~= entries@.take(i as int));
            lemma_listed_bytes_grow(entries@, i + 1);
        }
        match &entries[i] {
            Listed::File { path, probe: Ok(meta) } => {
                match total.checked_add(meta.len) {
                    Some(sum) => {
                        total = sum;
                    },
                    None => {
                        return false;
                    },
                }
            },
            _ => {},
        }
        i += 1;
    }
    proof {
        assert(entries@.take(i as int) =~= entries@);
    }
    true
}

/// Folds the listing of the directory `dir` into totals, largest files,
/// directories still to be scanned and warnings. The listing is either the
/// entries of the directory or the reason why it could not be listed; in that
/// case the result is empty but for the one warning.
pub fn scan(
    dir: &str,
    listing: Result<Vec<Listed>, String>,
    track_ext: bool,
    track_large: bool,
) -> (found: Scan)
    requires
        listing matches Ok(entries) ==> listed_bytes(entries@) <= u64::MAX,
    ensures
        listing matches Ok(entries) ==> {
            &&& found.stats@ == scanned_stats(entries@, track_ext)
            &&& found.largest@ == if track_large {
                top_k(scanned_files(entries@), LARGEST_FILES as nat)
            } else {
                Seq::<Entry>::empty()
            }
            &&& paths_view(found.children@) == scanned_children(entries@)
            &&& reports_failures(found.warnings@, scanned_failures(entries@))
        },
        listing matches Err(reason) ==> {
            &&& found.stats@ == empty_stats(track_ext)
            &&& found.largest@ == Seq::<Entry>::empty()
            &&& found.children@.len() == 0
            &&& found.warnings@.len() == 1
            &&& is_directory_error(found.warnings@[0], dir@, reason@)
        },
{
    let mut stats = Stats::new(track_ext);
    let mut largest = LargeFiles::new();
    let mut children: Vec<String> = Vec::new();
    let mut warnings: Vec<ScanError> = Vec::new();
    match listing {
        Err(reason) => {
            warnings.push(ScanError::DirectoryReadError { path: dir.to_owned(), reason });
        },
        Ok(entries) => {
            let ghost k = LARGEST_FILES as nat;
            proof {
                lemma_top_k_of_retained(Seq::<Entry>::empty(), k);
            }
            let mut i: usize = 0;
            while i < entries.len()
                invariant
                    i <= entries.len(),
                    k == LARGEST_FILES as nat,
                    listed_bytes(entries@) <= u64::MAX,
                    stats@ == scanned_stats(entries@.take(i as int), track_ext),
                    largest@ == if track_large {
                        top_k(scanned_files(entries@.take(i as int)), k)
                    } else {
                        Seq::<Entry>::empty()
                    },
                    paths_view(children@) == scanned_children(entries@.take(i as int)),
                    reports_failures(warnings@, scanned_failures(entries@.take(i as int))),
                decreases entries.len() - i,
            {
                let ghost done = entries@.take(i as int);
                proof {
                    assert(entries@.take(i + 1).drop_last() =~= done);
                    lemma_listed_bytes_grow(entries@, i + 1);
                    lemma_scanned_totals(done, track_ext);
                }
                match &entries[i] {
                    Listed::File { path, probe } => {
                        match probe {
                            Ok(meta) => {
                                stats.fold_file(meta);
                                if track_large {
                                    proof {
                                        lemma_offer_after_cut(
                                            scanned_files(done),
                                            (meta.len, path@),
                                            k,
                                        );
                                    }
                                    track_large_file(&mut largest, path.as_str(), meta.len);
                                }
                            },
                            Err(reason) => {
                                let ghost before = warnings@;
                                warnings.push(
                                    ScanError::FileMetadataError {
                                        path: path.clone(),
                                        reason: reason.clone(),
                                    },
                                );
                                proof {
                                    let failures = scanned_failures(entries@.take(i + 1));
                                    assert forall|j: int|
                                        0 <= j < warnings@.len() implies is_metadata_error(
                                        #[trigger] warnings@[j],
                                        failures[j].0,
                                        failures[j].1,
                                    ) by {}
                                }
                            },
                        }
                    },
                    Listed::Directory { path } => {
                        children.push(path.clone());
                    },
                    Listed::Other { path } => {},
                }
                i += 1;
            }
            proof {
                assert(entries@.take(i as int) =~= entries@);
            }
        },
    }
    Scan { stats, largest, children, warnings }
}

} // verus!
