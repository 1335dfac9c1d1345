//! The tracker of the ten largest files.

use crate::order::{
    entries_view, entry_le, entry_no_larger, entry_view, largest_first, lemma_entry_total_order,
    Entry,
};
use crate::topk::{
    lemma_insert_sorted, lemma_offers_begin, lemma_offers_end, lemma_offers_go_on,
    lemma_top_k_len, merged, offer, retained, top_k,
};
use vstd::multiset::*;
use vstd::prelude::*;
use vstd::relations::*;
use vstd::seq_lib::*;

verus! {

/// How many files the report of the largest files lists.
pub const LARGEST_FILES: usize = 10;

/// The largest files seen so far, at most `LARGEST_FILES` of them, kept with
/// the largest first.
pub struct LargeFiles {
    items: Vec<(u64, String)>,
}

impl View for LargeFiles {
    type V = Seq<Entry>;

    closed spec fn view(&self) -> Seq<Entry> {
        entries_view(self.items@)
    }
}

/// Offers `entry` to the entries in `items`, which may hold `cap` of them:
/// it goes to its place in the order, and the smallest entry leaves if there
/// is one too many.
fn offer_entry(items: &mut Vec<(u64, String)>, entry: (u64, String), cap: usize)
    requires
        retained(entries_view(old(items)@), cap as nat),
    ensures
        entries_view(final(items)@) == offer(
            entries_view(old(items)@),
            entry_view(entry),
            cap as nat,
        ),
        retained(entries_view(final(items)@), cap as nat),
{
    let ghost t = entries_view(items@);
    let ghost e = entry_view(entry);
    let ghost up = |a: Entry, b: Entry| entry_le(a, b);
    let mut p: usize = 0;
    while p < items.len() && !entry_no_larger(&items[p], &entry)
        invariant
            p <= items.len(),
            items@ == old(items)@,
            t == entries_view(items@),
            e == entry_view(entry),
            forall|i: int| 0 <= i < p ==> !entry_le(#[trigger] t[i], e),
        decreases items.len() - p,
    {
        assert(t[p as int] == entry_view(items@[p as int]));
        p += 1;
    }
    proof {
        lemma_entry_total_order();
        assert forall|i: int| 0 <= i < p implies entry_le(e, #[trigger] t[i]) by {
            assert(up(e, t[i]) || up(t[i], e));
        }
        assert forall|i: int| p <= i < t.len() implies entry_le(#[trigger] t[i], e) by {
            assert(t[p as int] == entry_view(items@[p as int]));
            if i > p {
                assert(largest_first()(t[p as int], t[i]));
                assert(up(t[i], t[p as int]) && up(t[p as int], e) ==> up(t[i], e));
            }
        }
        lemma_insert_sorted(t, p as int, e);
        lemma_top_k_len(t.push(e), cap as nat);
    }
    items.insert(p, entry);
    assert(entries_view(items@) =~= t.insert(p as int, e));
    if items.len() > cap {
        items.pop();
    }
}

impl LargeFiles {
    #[verifier::type_invariant]
    spec fn well_formed(self) -> bool {
        retained(entries_view(self.items@), LARGEST_FILES as nat)
    }

    /// A tracker that has seen no file.
    pub fn new() -> (files: Self)
        ensures
            files@ == Seq::<Entry>::empty(),
    {
        LargeFiles { items: Vec::new() }
    }

    /// The number of files held.
    pub fn len(&self) -> (n: usize)
        ensures
            n == self@.len(),
            n <= LARGEST_FILES,
    {
        proof {
            use_type_invariant(self);
        }
        self.items.len()
    }

    /// A copy of the files held as (size, path), the largest first.
    pub fn snapshot(&self) -> (files: Vec<(u64, String)>)
        ensures
            entries_view(files@) == self@,
            retained(self@, LARGEST_FILES as nat),
    {
        proof {
            use_type_invariant(self);
        }
        let mut files: Vec<(u64, String)> = Vec::new();
        let mut i: usize = 0;
        while i < self.items.len()
            invariant
                i <= self.items.len(),
                files@.len() == i,
                forall|j: int| 0 <= j < i ==> entry_view(#[trigger] files@[j]) == entry_view(
                    self.items@[j],
                ),
            decreases self.items.len() - i,
        {
            files.push((self.items[i].0, self.items[i].1.clone()));
            i += 1;
        }
        files
    }

    /// The files held as (size, path), the largest first.
    pub fn into_sorted_vec(self) -> (files: Vec<(u64, String)>)
        ensures
            entries_view(files@) == self@,
            retained(self@, LARGEST_FILES as nat),
    {
        proof {
            use_type_invariant(&self);
        }
        self.items
    }
}

/// Offers the file at `path` with `size` bytes to the tracker: afterwards it
/// holds the largest of what it held and the new file.
pub fn track_large_file(large_files: &mut LargeFiles, path: &str, size: u64)
    ensures
        final(large_files)@ == offer(old(large_files)@, (size, path@), LARGEST_FILES as nat),
        final(large_files)@.len() <= LARGEST_FILES,
{
    proof {
        use_type_invariant(&*large_files);
    }
    let mut items: Vec<(u64, String)> = Vec::new();
    std::mem::swap(&mut large_files.items, &mut items);
    offer_entry(&mut items, (size, path.to_owned()), LARGEST_FILES);
    large_files.items = items;
}

/// Offers every file of `source` to `target`: afterwards `target` holds the
/// largest of what the two held.
pub fn merge_largest_files(target: &mut LargeFiles, source: LargeFiles)
    ensures
        final(target)@ == merged(old(target)@, source@, LARGEST_FILES as nat),
        final(target)@.len() <= LARGEST_FILES,
{
    proof {
        use_type_invariant(&*target);
        use_type_invariant(&source);
    }
    let ghost k = LARGEST_FILES as nat;
    let ghost a = target@;
    let ghost b = source@;
    let ghost mut done = Seq::<Entry>::empty();
    let mut rest = source.items;
    let mut items: Vec<(u64, String)> = Vec::new();
    std::mem::swap(&mut target.items, &mut items);
    proof {
        lemma_offers_begin(a, b, k);
    }
    while rest.len() > 0
        invariant
            k == LARGEST_FILES as nat,
            retained(entries_view(items@), k),
            entries_view(items@) == top_k(a + done, k),
            done.to_multiset().add(entries_view(rest@).to_multiset()) == b.to_multiset(),
        decreases rest.len(),
    {
        let ghost left = entries_view(rest@);
        let item = rest.pop().unwrap();
        proof {
            lemma_offers_go_on(a, done, left, b, k);
            assert(entries_view(rest@) =~= left.drop_last());
            done = done.push(entry_view(item));
        }
        offer_entry(&mut items, item, LARGEST_FILES);
    }
    proof {
        lemma_offers_end(a, done, entries_view(rest@), b, k);
    }
    target.items = items;
}

} // verus!
