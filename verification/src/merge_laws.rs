//! Laws of merging: the result of a walk depends on the files alone, not on
//! the number of workers nor on which of them scanned what, in which order.

use crate::extensions::ext_union;
use crate::order::Entry;
use crate::stats::{
    empty_stats, file_stats, merge_stats, sum_stats, with_file, FileMeta, StatsView,
};
use crate::topk::{
    lemma_top_k_absorbs, lemma_top_k_of_retained, lemma_top_k_permutation, merged, top_k,
};
use vstd::prelude::*;
use vstd::seq_lib::*;

verus! {

/// Merging totals is associative.
pub proof fn lemma_merge_associative(a: StatsView, b: StatsView, c: StatsView)
    ensures
        merge_stats(merge_stats(a, b), c) == merge_stats(a, merge_stats(b, c)),
{
    assert(ext_union(ext_union(a.ext, b.ext), c.ext) =~= ext_union(
        a.ext,
        ext_union(b.ext, c.ext),
    ));
}

/// Merging totals is commutative in bytes, files and extensions; whether
/// extensions are tracked is taken from the left-hand side.
pub proof fn lemma_merge_commutative(a: StatsView, b: StatsView)
    ensures
        merge_stats(a, b) == (StatsView { track_ext: a.track_ext, ..merge_stats(b, a) }),
{
    assert(ext_union(a.ext, b.ext) =~= ext_union(b.ext, a.ext));
}

/// Merging with totals over no file changes nothing.
pub proof fn lemma_merge_empty(a: StatsView, track_ext: bool)
    ensures
        merge_stats(a, empty_stats(track_ext)) == a,
        merge_stats(empty_stats(track_ext), a) == (StatsView { track_ext, ..a }),
{
    assert(ext_union(a.ext, empty_stats(track_ext).ext) =~= a.ext);
    assert(ext_union(empty_stats(track_ext).ext, a.ext) =~= a.ext);
}

/// Merging never takes bytes, files or an extension away.
pub proof fn lemma_merge_keeps(a: StatsView, b: StatsView)
    ensures
        merge_stats(a, b).size >= a.size,
        merge_stats(a, b).size >= b.size,
        merge_stats(a, b).count >= a.count,
        merge_stats(a, b).count >= b.count,
        forall|k: Seq<char>|
            a.ext.dom().contains(k) || b.ext.dom().contains(k) ==> #[trigger] merge_stats(
                a,
                b,
            ).ext.dom().contains(k),
{
}

/// Folding a file in is merging with the totals over that file alone.
pub proof fn lemma_with_file_is_merge(s: StatsView, meta: FileMeta)
    ensures
        with_file(s, meta) == merge_stats(s, file_stats(meta, s.track_ext)),
{
    assert(with_file(s, meta).ext =~= merge_stats(s, file_stats(meta, s.track_ext)).ext);
}

/// The function that `sum_stats` folds with.
pub open spec fn merging() -> spec_fn(StatsView, StatsView) -> StatsView {
    |acc: StatsView, part: StatsView| merge_stats(acc, part)
}

/// `sum_stats` is a fold from the left.
pub proof fn lemma_sum_is_fold(parts: Seq<StatsView>)
    ensures
        sum_stats(parts) == parts.fold_left(empty_stats(false), merging()),
    decreases parts.len(),
{
    if parts.len() > 0 {
        lemma_sum_is_fold(parts.drop_last());
    }
}

/// The sum of two runs of totals, one after the other, is the merge of
/// their sums.
pub proof fn lemma_sum_concat(a: Seq<StatsView>, b: Seq<StatsView>)
    ensures
        sum_stats(a + b) == merge_stats(sum_stats(a), sum_stats(b)),
    decreases b.len(),
{
    if b.len() == 0 {
        lemma_merge_empty(sum_stats(a), false);
    } else {
        lemma_sum_concat(a, b.drop_last());
        assert((a + b).drop_last() =~= a + b.drop_last());
        lemma_merge_associative(sum_stats(a), sum_stats(b.drop_last()), b.last());
    }
}

/// The sum of totals does not depend on their order.
pub proof fn lemma_sum_permutation(a: Seq<StatsView>, b: Seq<StatsView>)
    requires
        a.to_multiset() == b.to_multiset(),
    ensures
        sum_stats(a) == sum_stats(b),
{
    let f = merging();
    assert forall|x: StatsView, y: StatsView, v: StatsView| #[trigger]
        f(f(v, x), y) == f(f(v, y), x) by {
        assert(ext_union(ext_union(v.ext, x.ext), y.ext) =~= ext_union(
            ext_union(v.ext, y.ext),
            x.ext,
        ));
    }
    lemma_sum_is_fold(a);
    lemma_sum_is_fold(b);
    lemma_fold_left_permutation(a, b, f, empty_stats(false));
}

/// What one worker ends up with: totals over no file, with the totals of
/// its scans merged in one after the other.
pub open spec fn worker_total(scans: Seq<StatsView>, track_ext: bool) -> StatsView
    decreases scans.len(),
{
    if scans.len() == 0 {
        empty_stats(track_ext)
    } else {
        merge_stats(worker_total(scans.drop_last(), track_ext), scans.last())
    }
}

/// What the workers end up with, where `groups[i]` holds the totals of the
/// scans that worker `i` made, in the order in which it made them.
pub open spec fn worker_totals(groups: Seq<Seq<StatsView>>, track_ext: bool) -> Seq<StatsView> {
    Seq::new(groups.len(), |i: int| worker_total(groups[i], track_ext))
}

/// The result of a walk in which the scans fell to the workers as `groups`
/// says.
pub open spec fn walk_total(groups: Seq<Seq<StatsView>>, track_ext: bool) -> StatsView {
    StatsView { track_ext, ..sum_stats(worker_totals(groups, track_ext)) }
}

/// All scans of a walk, worker after worker.
pub open spec fn all_scans(groups: Seq<Seq<StatsView>>) -> Seq<StatsView>
    decreases groups.len(),
{
    if groups.len() == 0 {
        Seq::empty()
    } else {
        all_scans(groups.drop_last()) + groups.last()
    }
}

/// A worker ends up with the sum of its scans.
pub proof fn lemma_worker_total(scans: Seq<StatsView>, track_ext: bool)
    ensures
        worker_total(scans, track_ext) == (StatsView { track_ext, ..sum_stats(scans) }),
    decreases scans.len(),
{
    if scans.len() > 0 {
        lemma_worker_total(scans.drop_last(), track_ext);
    }
}

/// The result of a walk is the sum of all its scans.
pub proof fn lemma_walk_total(groups: Seq<Seq<StatsView>>, track_ext: bool)
    ensures
        walk_total(groups, track_ext) == (StatsView { track_ext, ..sum_stats(all_scans(groups)) }),
    decreases groups.len(),
{
    if groups.len() > 0 {
        let fewer = groups.drop_last();
        lemma_walk_total(fewer, track_ext);
        assert(worker_totals(groups, track_ext).drop_last() =~= worker_totals(fewer, track_ext));
        lemma_worker_total(groups.last(), track_ext);
        lemma_sum_concat(all_scans(fewer), groups.last());
    }
}

/// The result of a walk does not depend on the number of workers, on which
/// worker made which scan, nor on the order of the scans: two walks that
/// made the same scans give the same totals.
pub proof fn lemma_walk_total_is_deterministic(
    one: Seq<Seq<StatsView>>,
    other: Seq<Seq<StatsView>>,
    track_ext: bool,
)
    requires
        all_scans(one).to_multiset() == all_scans(other).to_multiset(),
    ensures
        walk_total(one, track_ext) == walk_total(other, track_ext),
{
    lemma_walk_total(one, track_ext);
    lemma_walk_total(other, track_ext);
    lemma_sum_permutation(all_scans(one), all_scans(other));
}

/// The tracker that one worker ends up with: an empty one, with the
/// trackers of its scans merged in one after the other.
pub open spec fn worker_files(scans: Seq<Seq<Entry>>, k: nat) -> Seq<Entry>
    decreases scans.len(),
{
    if scans.len() == 0 {
        Seq::empty()
    } else {
        merged(worker_files(scans.drop_last(), k), scans.last(), k)
    }
}

/// The files of all scans of one worker.
pub open spec fn scanned_by_worker(scans: Seq<Seq<Entry>>) -> Seq<Entry>
    decreases scans.len(),
{
    if scans.len() == 0 {
        Seq::empty()
    } else {
        scanned_by_worker(scans.drop_last()) + scans.last()
    }
}

/// What the trackers of all workers hold, worker after worker, where
/// `groups[i]` holds the files of the scans that worker `i` made.
pub open spec fn held_by_workers(groups: Seq<Seq<Seq<Entry>>>, k: nat) -> Seq<Entry>
    decreases groups.len(),
{
    if groups.len() == 0 {
        Seq::empty()
    } else {
        held_by_workers(groups.drop_last(), k) + worker_files(groups.last(), k)
    }
}

/// The files of all scans of a walk.
pub open spec fn scanned_by_all(groups: Seq<Seq<Seq<Entry>>>) -> Seq<Entry>
    decreases groups.len(),
{
    if groups.len() == 0 {
        Seq::empty()
    } else {
        scanned_by_all(groups.drop_last()) + scanned_by_worker(groups.last())
    }
}

/// The largest files of a walk in which the scans fell to the workers as
/// `groups` says.
pub open spec fn walk_largest(groups: Seq<Seq<Seq<Entry>>>, k: nat) -> Seq<Entry> {
    top_k(held_by_workers(groups, k), k)
}

/// The `k` largest of two runs of entries do not depend on which comes
/// first.
proof fn lemma_top_k_either_way(a: Seq<Entry>, b: Seq<Entry>, k: nat)
    ensures
        top_k(a + b, k) == top_k(b + a, k),
{
    lemma_seq_union_to_multiset_commutative(a, b);
    lemma_top_k_permutation(a + b, b + a, k);
}

/// A worker's tracker ends up with the `k` largest files of its scans.
pub proof fn lemma_worker_files(scans: Seq<Seq<Entry>>, k: nat)
    ensures
        worker_files(scans, k) == top_k(scanned_by_worker(scans), k),
    decreases scans.len(),
{
    if scans.len() == 0 {
        lemma_top_k_of_retained(Seq::empty(), k);
    } else {
        lemma_worker_files(scans.drop_last(), k);
        lemma_top_k_absorbs(scanned_by_worker(scans.drop_last()), scans.last(), k);
    }
}

/// The largest files of a walk are the `k` largest of all files scanned.
pub proof fn lemma_walk_largest(groups: Seq<Seq<Seq<Entry>>>, k: nat)
    ensures
        walk_largest(groups, k) == top_k(scanned_by_all(groups), k),
    decreases groups.len(),
{
    if groups.len() > 0 {
        let held = held_by_workers(groups.drop_last(), k);
        let seen = scanned_by_all(groups.drop_last());
        let last = scanned_by_worker(groups.last());
        lemma_walk_largest(groups.drop_last(), k);
        lemma_worker_files(groups.last(), k);
        // held + top_k(last): first the files of the last worker uncut ...
        lemma_top_k_either_way(held, top_k(last, k), k);
        lemma_top_k_absorbs(last, held, k);
        lemma_top_k_either_way(last, held, k);
        // ... then those of the workers before it.
        lemma_top_k_absorbs(held, last, k);
        lemma_top_k_absorbs(seen, last, k);
    }
}

/// The largest files of a walk do not depend on the number of workers, on
/// which worker made which scan, nor on the order of the scans: two walks
/// that scanned the same files give the same largest files.
pub proof fn lemma_walk_largest_is_deterministic(
    one: Seq<Seq<Seq<Entry>>>,
    other: Seq<Seq<Seq<Entry>>>,
    k: nat,
)
    requires
        scanned_by_all(one).to_multiset() == scanned_by_all(other).to_multiset(),
    ensures
        walk_largest(one, k) == walk_largest(other, k),
{
    lemma_walk_largest(one, k);
    lemma_walk_largest(other, k);
    lemma_top_k_permutation(scanned_by_all(one), scanned_by_all(other), k);
}

} // verus!
