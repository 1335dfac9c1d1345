//! The texts and rows of the report.

use crate::largest::LargeFiles;
use crate::order::{entries_view, entry_view, Entry};
use crate::stats::{Stats, StatsView};
use thousands::Separable;
use vstd::prelude::*;
use vstd::string::*;

verus! {

/// The longest path that a report shows in full, in characters.
pub const MAX_WIDTH: usize = 80;

/// The decimal digit for `d`.
pub open spec fn digit(d: nat) -> char {
    seq!['0', '1', '2', '3', '4', '5', '6', '7', '8', '9'][d as int]
}

/// The decimal digits of `n`.
pub open spec fn decimal(n: nat) -> Seq<char>
    decreases n,
{
    if n < 10 {
        seq![digit(n)]
    } else {
        decimal(n / 10).push(digit(n % 10))
    }
}

/// The decimal digits of `n` with a comma before each group of three digits,
/// counted from the right.
pub open spec fn grouped(n: nat) -> Seq<char>
    decreases n,
{
    if n < 1000 {
        decimal(n)
    } else {
        grouped(n / 1000) + seq![',', digit(n / 100 % 10), digit(n / 10 % 10), digit(n % 10)]
    }
}

/// `thousands::Separable::separate_with_commas` on a `u64`: the number in
/// decimal digits, with a comma before each group of three digits counted from
/// the right.
#[verifier::external_body]
fn with_commas(n: u64) -> (text: String)
    ensures
        text@ == grouped(n as nat),
{
    n.separate_with_commas()
}

/// The line that sums a scan up, given the size as a reader likes it.
pub open spec fn summary_of(stats: StatsView, human_size: Seq<char>) -> Seq<char> {
    "Total size is "@ + grouped(stats.size) + " bytes ("@ + human_size + ") across "@ + grouped(
        stats.count,
    ) + " items"@
}

/// The line that sums a scan up: the bytes in digits, the size as a reader
/// likes it, which the caller gives, and the number of files.
pub fn summary(stats: &Stats, human_size: &str) -> (line: String)
    ensures
        line@ == summary_of(stats@, human_size@),
{
    let mut line = String::from_str("Total size is ");
    line.append(with_commas(stats.size()).as_str());
    line.append(" bytes (");
    line.append(human_size);
    line.append(") across ");
    line.append(with_commas(stats.count()).as_str());
    line.append(" items");
    line
}

/// A path as a report shows it: in full up to `MAX_WIDTH` characters, else
/// its first 40 characters, three dots and its last 40 characters.
pub open spec fn truncated(path: Seq<char>) -> Seq<char> {
    if path.len() <= MAX_WIDTH {
        path
    } else {
        path.take(40) + "..."@ + path.skip(path.len() - 40)
    }
}

/// The path as a report shows it: long paths keep their head and their
/// tail, with three dots in between.
pub fn truncate(path: &str) -> (shown: String)
    ensures
        shown@ == truncated(path@),
{
    let len = path.unicode_len();
    if len <= MAX_WIDTH {
        return path.to_owned();
    }
    let half = len / 2;
    let mid = if half < MAX_WIDTH / 2 {
        half
    } else {
        MAX_WIDTH / 2
    };
    let mut shown = String::from_str(path.substring_char(0, mid));
    shown.append("...");
    shown.append(path.substring_char(len - mid, len));
    shown
}

/// A path below the root of a scan as a report shows it: without the root
/// and the separator behind it, and no wider than a report allows.
pub open spec fn shown_path(path: Seq<char>, root: Seq<char>) -> Seq<char> {
    truncated(path.skip(root.len() as int + 1))
}

/// Whether every path in `files` is longer than `root`, as a path below
/// `root` is.
pub open spec fn all_below(files: Seq<Entry>, root: Seq<char>) -> bool {
    forall|i: int| 0 <= i < files.len() ==> (#[trigger] files[i]).1.len() > root.len()
}

/// Whether every path in `files` is longer than `root`.
pub fn paths_below(files: &LargeFiles, root: &str) -> (below: bool)
    ensures
        below == all_below(files@, root@),
{
    let items = files.snapshot();
    let root_len = root.unicode_len();
    let mut i: usize = 0;
    while i < items.len()
        invariant
            i <= items.len(),
            root_len == root@.len(),
            entries_view(items@) == files@,
            forall|j: int| 0 <= j < i ==> (#[trigger] files@[j]).1.len() > root@.len(),
        decreases items.len() - i,
    {
        assert(files@[i as int] == entry_view(items@[i as int]));
        if items[i].1.as_str().unicode_len() <= root_len {
            return false;
        }
        i += 1;
    }
    true
}

/// The rows of the report of the largest files: for each file its size and
/// its path as shown, the largest file first.
pub fn largest_files_rows(files: &LargeFiles, root: &str) -> (rows: Vec<(u64, String)>)
    requires
        all_below(files@, root@),
    ensures
        rows@.len() == files@.len(),
        forall|i: int|
            0 <= i < rows@.len() ==> (#[trigger] rows@[i]).0 == files@[i].0 && rows@[i].1@
                == shown_path(files@[i].1, root@),
{
    let items = files.snapshot();
    let root_len = root.unicode_len();
    let mut rows: Vec<(u64, String)> = Vec::new();
    let mut i: usize = 0;
    while i < items.len()
        invariant
            i <= items.len(),
            rows@.len() == i,
            root_len == root@.len(),
            entries_view(items@) == files@,
            all_below(files@, root@),
            forall|j: int|
                0 <= j < i ==> (#[trigger] rows@[j]).0 == files@[j].0 && rows@[j].1@
                    == shown_path(files@[j].1, root@),
        decreases items.len() - i,
    {
        assert(files@[i as int] == entry_view(items@[i as int]));
        let path = items[i].1.as_str();
        let len = path.unicode_len();
        let below = path.substring_char(root_len + 1, len);
        rows.push((items[i].0, truncate(below)));
        i += 1;
    }
    rows
}

} // verus!
