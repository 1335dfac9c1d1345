//! A bounded priority queue over a min-max heap.

use crate::order::{
    entries_view, entry_le, entry_view, largest_first, lemma_entry_total_order, Entry,
};
use crate::topk::{
    lemma_offer_all, lemma_offers_begin, lemma_offers_end, lemma_offers_go_on, lemma_sort_facts,
    lemma_sorted_is_sort, lemma_top_k_len, lemma_top_k_of_retained, lemma_top_k_permutation,
    merged, offer, offer_all, retained, top_k,
};
use min_max_heap::MinMaxHeap;
use vstd::multiset::*;
use vstd::prelude::*;
use vstd::relations::*;
use vstd::seq_lib::*;

verus! {

/// `min_max_heap::MinMaxHeap`, taken as it is: what is inside a heap is known
/// only through `heap_entries`.
#[verifier::external_type_specification]
#[verifier::external_body]
#[verifier::reject_recursive_types(T)]
pub struct ExMinMaxHeap<T>(MinMaxHeap<T>);

/// The entries that a heap holds, each as often as it was put in and not
/// taken out again.
pub uninterp spec fn heap_entries(heap: MinMaxHeap<(u64, String)>) -> Multiset<Entry>;

/// `MinMaxHeap::new`: a heap that holds nothing.
#[verifier::external_body]
fn heap_new() -> (heap: MinMaxHeap<(u64, String)>)
    ensures
        heap_entries(heap) == Multiset::<Entry>::empty(),
{
    MinMaxHeap::new()
}

/// `MinMaxHeap::len`: the number of entries held.
#[verifier::external_body]
fn heap_len(heap: &MinMaxHeap<(u64, String)>) -> (n: usize)
    ensures
        n == heap_entries(*heap).len(),
{
    heap.len()
}

/// `MinMaxHeap::push`: the heap holds one more entry, the one given.
#[verifier::external_body]
fn heap_push(heap: &mut MinMaxHeap<(u64, String)>, entry: (u64, String))
    ensures
        heap_entries(*final(heap)) == heap_entries(*old(heap)).insert(entry_view(entry)),
{
    heap.push(entry)
}

/// `MinMaxHeap::push_pop_min`: of the entries held and the one given, a
/// smallest one is handed back and the others are held. Tuples compare by
/// their first component and then by their second; strings compare by their
/// bytes.
#[verifier::external_body]
fn heap_push_pop_min(heap: &mut MinMaxHeap<(u64, String)>, entry: (u64, String)) -> (out: (
    u64,
    String,
))
    ensures
        heap_entries(*old(heap)).insert(entry_view(entry)).count(entry_view(out)) > 0,
        forall|x: Entry|
            heap_entries(*old(heap)).insert(entry_view(entry)).count(x) > 0 ==> entry_le(
                entry_view(out),
                x,
            ),
        heap_entries(*final(heap)) == heap_entries(*old(heap)).insert(entry_view(entry)).remove(
            entry_view(out),
        ),
{
    heap.push_pop_min(entry)
}

/// `MinMaxHeap::iter`: a copy of every entry held, in no stated order.
#[verifier::external_body]
fn heap_items(heap: &MinMaxHeap<(u64, String)>) -> (items: Vec<(u64, String)>)
    ensures
        entries_view(items@).to_multiset() == heap_entries(*heap),
{
    heap.iter().cloned().collect()
}

/// `MinMaxHeap::into_vec_desc`: the entries held, the largest first.
#[verifier::external_body]
fn heap_into_vec_desc(heap: MinMaxHeap<(u64, String)>) -> (items: Vec<(u64, String)>)
    ensures
        entries_view(items@).to_multiset() == heap_entries(heap),
        sorted_by(entries_view(items@), largest_first()),
{
    heap.into_vec_desc()
}

/// The entries of `m`, the largest first.
pub open spec fn ordered(m: Multiset<Entry>) -> Seq<Entry> {
    choose|s: Seq<Entry>| s.to_multiset() == m && sorted_by(s, largest_first())
}

/// A sequence's entries, the largest first, are the sequence sorted.
pub proof fn lemma_ordered(s: Seq<Entry>)
    ensures
        ordered(s.to_multiset()) == s.sort_by(largest_first()),
        ordered(s.to_multiset()).to_multiset() == s.to_multiset(),
        sorted_by(ordered(s.to_multiset()), largest_first()),
        ordered(s.to_multiset()).len() == s.len(),
{
    lemma_sort_facts(s);
    lemma_sorted_is_sort(s, ordered(s.to_multiset()));
}

/// A queue that keeps the entries with the highest priorities among those
/// pushed, up to a fixed number of them.
pub struct PriorityQueue {
    p: MinMaxHeap<(u64, String)>,
    size: usize,
}

impl View for PriorityQueue {
    type V = Seq<Entry>;

    /// The entries held as (priority, item), the highest priority first.
    closed spec fn view(&self) -> Seq<Entry> {
        ordered(heap_entries(self.p))
    }
}

impl Default for PriorityQueue {
    /// An empty queue for up to 20 entries.
    fn default() -> (queue: Self)
        ensures
            queue@ == Seq::<Entry>::empty(),
            queue.capacity() == 20,
    {
        PriorityQueue::new(20)
    }
}

impl PriorityQueue {
    #[verifier::type_invariant]
    spec fn well_formed(self) -> bool {
        &&& self@.to_multiset() == heap_entries(self.p)
        &&& retained(self@, self.size as nat)
    }

    /// The number of entries that the queue keeps at most.
    pub closed spec fn capacity(&self) -> nat {
        self.size as nat
    }

    /// An empty queue for up to `size` entries.
    pub fn new(size: usize) -> (queue: Self)
        ensures
            queue@ == Seq::<Entry>::empty(),
            queue.capacity() == size,
    {
        let p = heap_new();
        proof {
            lemma_empty_heap(p);
        }
        PriorityQueue { p, size }
    }

    /// Offers `item` with `priority`: the queue then holds the entries with
    /// the highest priorities among those it held and the new one.
    pub fn push(&mut self, item: String, priority: u64)
        ensures
            final(self)@ == offer(old(self)@, (priority, item@), old(self).capacity()),
            final(self).capacity() == old(self).capacity(),
            final(self)@.len() <= final(self).capacity(),
    {
        proof {
            use_type_invariant(&*self);
        }
        let ghost t = self@;
        let ghost e = (priority, item@);
        let ghost k = self.size as nat;
        let mut heap = heap_new();
        proof {
            lemma_empty_heap(heap);
            to_multiset_build(t, e);
            to_multiset_len(t);
            lemma_top_k_len(t.push(e), k);
        }
        std::mem::swap(&mut self.p, &mut heap);
        if heap_len(&heap) == self.size {
            let out = heap_push_pop_min(&mut heap, (priority, item));
            proof {
                lemma_without_smallest(t.push(e), entry_view(out));
            }
        } else {
            heap_push(&mut heap, (priority, item));
            proof {
                lemma_sort_facts(t.push(e));
            }
        }
        proof {
            lemma_ordered_of_sorted(top_k(t.push(e), k));
        }
        self.p = heap;
    }

    /// Offers every entry of `other`: the queue then holds the entries with
    /// the highest priorities among those that the two held.
    pub fn merge(&mut self, other: PriorityQueue)
        ensures
            final(self)@ == merged(old(self)@, other@, old(self).capacity()),
            final(self).capacity() == old(self).capacity(),
            final(self)@.len() <= final(self).capacity(),
    {
        proof {
            use_type_invariant(&*self);
            use_type_invariant(&other);
        }
        let ghost k = self.size as nat;
        let ghost a = self@;
        let ghost b = other@;
        let ghost mut done = Seq::<Entry>::empty();
        let mut rest = heap_items(&other.p);
        proof {
            lemma_offers_begin(a, b, k);
        }
        while rest.len() > 0
            invariant
                self.capacity() == k,
                self@ == top_k(a + done, k),
                done.to_multiset().add(entries_view(rest@).to_multiset()) == b.to_multiset(),
            decreases rest.len(),
        {
            let ghost left = entries_view(rest@);
            let entry = rest.pop().unwrap();
            proof {
                lemma_offers_go_on(a, done, left, b, k);
                assert(entries_view(rest@) =~= left.drop_last());
                done = done.push(entry_view(entry));
            }
            self.push(entry.1, entry.0);
        }
        proof {
            lemma_offers_end(a, done, entries_view(rest@), b, k);
        }
    }

    /// The entries held as (item, priority), the highest priority first.
    pub fn get(&self) -> (entries: Vec<(String, u64)>)
        ensures
            entries@.len() == self@.len(),
            entries@.len() <= self.capacity(),
            forall|i: int|
                0 <= i < entries@.len() ==> (#[trigger] entries@[i]).1 == self@[i].0
                    && entries@[i].0@ == self@[i].1,
    {
        proof {
            use_type_invariant(self);
        }
        let items = heap_items(&self.p);
        let ghost given = entries_view(items@);
        let ghost k = self.size as nat;
        let mut copy = PriorityQueue::new(self.size);
        let mut i: usize = 0;
        while i < items.len()
            invariant
                i <= items.len(),
                given == entries_view(items@),
                k == self.size as nat,
                copy.capacity() == k,
                copy@ == offer_all(Seq::<Entry>::empty(), given.take(i as int), k),
            decreases items.len() - i,
        {
            proof {
                assert(given.take(i + 1).drop_last() =~= given.take(i as int));
            }
            copy.push(items[i].1.clone(), items[i].0);
            i += 1;
        }
        proof {
            use_type_invariant(&copy);
            assert(given.take(i as int) =~= given);
            lemma_offer_all(Seq::<Entry>::empty(), given, k);
            lemma_top_k_permutation(given, self@, k);
            lemma_top_k_of_retained(self@, k);
        }
        let sorted = heap_into_vec_desc(copy.p);
        proof {
            lemma_entry_total_order();
            lemma_sorted_unique(entries_view(sorted@), self@, largest_first());
        }
        let mut entries: Vec<(String, u64)> = Vec::new();
        let mut j: usize = 0;
        while j < sorted.len()
            invariant
                j <= sorted.len(),
                entries@.len() == j,
                entries_view(sorted@) == self@,
                forall|i: int|
                    0 <= i < j ==> (#[trigger] entries@[i]).1 == self@[i].0 && entries@[i].0@
                        == self@[i].1,
            decreases sorted.len() - j,
        {
            entries.push((sorted[j].1.clone(), sorted[j].0));
            j += 1;
        }
        entries
    }
}

/// The entries of a sequence that has the largest first are that sequence.
proof fn lemma_ordered_of_sorted(s: Seq<Entry>)
    requires
        sorted_by(s, largest_first()),
    ensures
        ordered(s.to_multiset()) == s,
{
    lemma_ordered(s);
    lemma_sorted_is_sort(s, s);
}

/// Taking a smallest entry away leaves the largest entries, all but one.
proof fn lemma_without_smallest(s: Seq<Entry>, m: Entry)
    requires
        s.to_multiset().count(m) > 0,
        forall|x: Entry| s.to_multiset().count(x) > 0 ==> entry_le(m, x),
    ensures
        s.len() > 0,
        top_k(s, (s.len() - 1) as nat).to_multiset() == s.to_multiset().remove(m),
{
    lemma_entry_total_order();
    lemma_sort_facts(s);
    let sorted = s.sort_by(largest_first());
    let up = |a: Entry, b: Entry| entry_le(a, b);
    to_multiset_contains(sorted, m);
    let i = choose|i: int| 0 <= i < sorted.len() && sorted[i] == m;
    let last = sorted.len() - 1;
    to_multiset_contains(sorted, sorted[last]);
    assert(up(m, sorted[last]));
    assert(up(sorted[last], m)) by {
        if i < last {
            assert(largest_first()(sorted[i], sorted[last]));
        }
    }
    assert(sorted.take(last) =~= sorted.remove(last));
    to_multiset_remove(sorted, last);
}

/// A heap that holds nothing has nothing to order.
proof fn lemma_empty_heap(heap: MinMaxHeap<(u64, String)>)
    requires
        heap_entries(heap) == Multiset::<Entry>::empty(),
    ensures
        ordered(heap_entries(heap)) == Seq::<Entry>::empty(),
        ordered(heap_entries(heap)).to_multiset() == heap_entries(heap),
        sorted_by(ordered(heap_entries(heap)), largest_first()),
{
    let none = Seq::<Entry>::empty();
    to_multiset_len(none);
    lemma_multiset_empty_len(none.to_multiset());
    lemma_ordered(none);
}

} // verus!
