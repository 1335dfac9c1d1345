//! The `k` largest entries of a sequence, and what offering and merging do
//! to them.

use crate::order::{entry_le, largest_first, lemma_entry_total_order, Entry};
use vstd::multiset::*;
use vstd::prelude::*;
use vstd::relations::*;
use vstd::seq_lib::*;

verus! {

/// The `k` largest entries among `s`, the largest first.
pub open spec fn top_k(s: Seq<Entry>, k: nat) -> Seq<Entry> {
    let sorted = s.sort_by(largest_first());
    if k < sorted.len() {
        sorted.take(k as int)
    } else {
        sorted
    }
}

/// What a tracker of capacity `k` that holds `t` holds after `e` is offered.
pub open spec fn offer(t: Seq<Entry>, e: Entry, k: nat) -> Seq<Entry> {
    top_k(t.push(e), k)
}

/// What a tracker of capacity `k` that holds `t` holds after the entries of
/// `es` are offered one at a time, the first one first.
pub open spec fn offer_all(t: Seq<Entry>, es: Seq<Entry>, k: nat) -> Seq<Entry>
    decreases es.len(),
{
    if es.len() == 0 {
        t
    } else {
        offer(offer_all(t, es.drop_last(), k), es.last(), k)
    }
}

/// What two trackers of capacity `k` hold once merged.
pub open spec fn merged(a: Seq<Entry>, b: Seq<Entry>, k: nat) -> Seq<Entry> {
    top_k(a + b, k)
}

/// Contents that a tracker of capacity `k` can hold: at most `k` entries,
/// the largest first.
pub open spec fn retained(t: Seq<Entry>, k: nat) -> bool {
    sorted_by(t, largest_first()) && t.len() <= k
}

/// The first position of `t` whose entry is no larger than `e`.
pub open spec fn slot(t: Seq<Entry>, e: Entry) -> int
    decreases t.len(),
{
    if t.len() == 0 {
        0
    } else if !entry_le(t.last(), e) {
        t.len() as int
    } else {
        slot(t.drop_last(), e)
    }
}

/// Sorting keeps the entries and their number, and orders them.
pub proof fn lemma_sort_facts(s: Seq<Entry>)
    ensures
        sorted_by(s.sort_by(largest_first()), largest_first()),
        s.sort_by(largest_first()).to_multiset() == s.to_multiset(),
        s.sort_by(largest_first()).len() == s.len(),
{
    lemma_entry_total_order();
    s.lemma_sort_by_ensures(largest_first());
    to_multiset_len(s);
    to_multiset_len(s.sort_by(largest_first()));
}

/// A sorted sequence with the entries of `s` is `s` sorted.
pub proof fn lemma_sorted_is_sort(s: Seq<Entry>, t: Seq<Entry>)
    requires
        sorted_by(t, largest_first()),
        t.to_multiset() == s.to_multiset(),
    ensures
        s.sort_by(largest_first()) == t,
{
    lemma_entry_total_order();
    lemma_sort_facts(s);
    lemma_sorted_unique(s.sort_by(largest_first()), t, largest_first());
}

/// Sorting depends on the entries only, not on their order.
pub proof fn lemma_sort_permutation(a: Seq<Entry>, b: Seq<Entry>)
    requires
        a.to_multiset() == b.to_multiset(),
    ensures
        a.sort_by(largest_first()) == b.sort_by(largest_first()),
{
    lemma_sort_facts(b);
    lemma_sorted_is_sort(a, b.sort_by(largest_first()));
}

/// Putting `e` into a sorted sequence at a position with no smaller entry
/// before it and no larger entry from it on gives the sorted sequence of all.
pub proof fn lemma_insert_sorted(t: Seq<Entry>, p: int, e: Entry)
    requires
        sorted_by(t, largest_first()),
        0 <= p <= t.len(),
        forall|i: int| 0 <= i < p ==> entry_le(e, #[trigger] t[i]),
        forall|i: int| p <= i < t.len() ==> entry_le(#[trigger] t[i], e),
    ensures
        sorted_by(t.insert(p, e), largest_first()),
        t.insert(p, e).to_multiset() == t.push(e).to_multiset(),
        t.push(e).sort_by(largest_first()) == t.insert(p, e),
{
    let u = t.insert(p, e);
    assert forall|i: int, j: int| 0 <= i < j < u.len() implies #[trigger] largest_first()(
        u[i],
        u[j],
    ) by {}
    to_multiset_insert(t, p, e);
    to_multiset_build(t, e);
    lemma_sorted_is_sort(t.push(e), u);
}

/// In a sorted sequence the entries before the slot of `e` are larger than
/// `e`, and those from the slot on are no larger.
pub proof fn lemma_slot(t: Seq<Entry>, e: Entry)
    requires
        sorted_by(t, largest_first()),
    ensures
        0 <= slot(t, e) <= t.len(),
        forall|i: int| 0 <= i < slot(t, e) ==> !entry_le(#[trigger] t[i], e),
        forall|i: int| 0 <= i < slot(t, e) ==> entry_le(e, #[trigger] t[i]),
        forall|i: int| slot(t, e) <= i < t.len() ==> entry_le(#[trigger] t[i], e),
    decreases t.len(),
{
    lemma_entry_total_order();
    let up = |a: Entry, b: Entry| entry_le(a, b);
    if t.len() > 0 && !entry_le(t.last(), e) {
        assert forall|i: int| 0 <= i < t.len() implies !entry_le(#[trigger] t[i], e) && entry_le(
            e,
            t[i],
        ) by {
            assert(up(e, t.last()) || up(t.last(), e));
            if i < t.len() - 1 {
                assert(largest_first()(t[i], t[t.len() - 1]));
            }
            assert(up(t.last(), t[i]));
            if entry_le(t[i], e) {
                assert(up(t.last(), t[i]) && up(t[i], e) ==> up(t.last(), e));
            }
        }
    } else if t.len() > 0 {
        let d = t.drop_last();
        assert forall|i: int, j: int| 0 <= i < j < d.len() implies #[trigger] largest_first()(
            d[i],
            d[j],
        ) by {}
        lemma_slot(d, e);
        assert forall|i: int| slot(t, e) <= i < t.len() implies entry_le(#[trigger] t[i], e) by {
            if i < d.len() {
                assert(t[i] == d[i]);
            }
        }
        assert forall|i: int| 0 <= i < slot(t, e) implies !entry_le(#[trigger] t[i], e)
            && entry_le(e, t[i]) by {
            assert(t[i] == d[i]);
        }
    }
}

/// The `k` largest entries are at most `k`, and all there are if those are
/// at most `k`.
pub proof fn lemma_top_k_len(s: Seq<Entry>, k: nat)
    ensures
        top_k(s, k).len() == if k < s.len() {
            k
        } else {
            s.len()
        },
        retained(top_k(s, k), k),
{
    lemma_sort_facts(s);
    let sorted = s.sort_by(largest_first());
    if k < sorted.len() {
        assert forall|i: int, j: int| 0 <= i < j < k implies #[trigger] largest_first()(
            sorted.take(k as int)[i],
            sorted.take(k as int)[j],
        ) by {}
    }
}

/// Contents that a tracker can hold are their own `k` largest entries.
pub proof fn lemma_top_k_of_retained(t: Seq<Entry>, k: nat)
    requires
        retained(t, k),
    ensures
        top_k(t, k) == t,
{
    lemma_sorted_is_sort(t, t);
}

/// The `k` largest entries depend on the entries only, not on their order.
pub proof fn lemma_top_k_permutation(a: Seq<Entry>, b: Seq<Entry>, k: nat)
    requires
        a.to_multiset() == b.to_multiset(),
    ensures
        top_k(a, k) == top_k(b, k),
{
    lemma_sort_permutation(a, b);
}

/// Offering `e` to the `k` largest of `x` gives the `k` largest of `x` and
/// `e`: nothing that was cut off earlier would have come back.
pub proof fn lemma_offer_after_cut(x: Seq<Entry>, e: Entry, k: nat)
    ensures
        offer(top_k(x, k), e, k) == top_k(x.push(e), k),
{
    let s = x.sort_by(largest_first());
    lemma_sort_facts(x);
    lemma_slot(s, e);
    let p = slot(s, e);
    lemma_insert_sorted(s, p, e);
    to_multiset_build(x, e);
    to_multiset_build(s, e);
    lemma_sorted_is_sort(x.push(e), s.insert(p, e));

    let t = top_k(x, k);
    let q = if p <= t.len() {
        p
    } else {
        t.len() as int
    };
    assert forall|i: int| 0 <= i < q implies entry_le(e, #[trigger] t[i]) by {}
    assert forall|i: int| q <= i < t.len() implies entry_le(#[trigger] t[i], e) by {}
    lemma_insert_sorted(t, q, e);

    let lhs = top_k(t.push(e), k);
    let rhs = top_k(x.push(e), k);
    assert forall|i: int| 0 <= i < lhs.len() implies lhs[i] == rhs[i] by {}
}

/// Offering entries one at a time to the `k` largest of `a` gives the `k`
/// largest of all.
pub proof fn lemma_offer_all_after_cut(a: Seq<Entry>, b: Seq<Entry>, k: nat)
    ensures
        offer_all(top_k(a, k), b, k) == top_k(a + b, k),
    decreases b.len(),
{
    if b.len() > 0 {
        lemma_offer_all_after_cut(a, b.drop_last(), k);
        lemma_offer_after_cut(a + b.drop_last(), b.last(), k);
        assert((a + b.drop_last()).push(b.last()) =~= a + b);
    }
}

/// Entries offered one at a time to a tracker leave it with the `k` largest
/// of what it held and what was offered.
pub proof fn lemma_offer_all(t: Seq<Entry>, es: Seq<Entry>, k: nat)
    requires
        retained(t, k),
    ensures
        offer_all(t, es, k) == merged(t, es, k),
{
    lemma_top_k_of_retained(t, k);
    lemma_offer_all_after_cut(t, es, k);
}

/// The `k` largest of the `k` largest of `a` together with `b` are the `k`
/// largest of `a` together with `b`.
pub proof fn lemma_top_k_absorbs(a: Seq<Entry>, b: Seq<Entry>, k: nat)
    ensures
        top_k(top_k(a, k) + b, k) == top_k(a + b, k),
{
    lemma_top_k_len(a, k);
    lemma_offer_all(top_k(a, k), b, k);
    lemma_offer_all_after_cut(a, b, k);
}

/// Before any entry of `b` is offered to a tracker that holds `a`: nothing
/// is done, all of `b` is left, and the tracker holds the `k` largest of `a`.
pub proof fn lemma_offers_begin(a: Seq<Entry>, b: Seq<Entry>, k: nat)
    requires
        retained(a, k),
    ensures
        Seq::<Entry>::empty().to_multiset().add(b.to_multiset()) == b.to_multiset(),
        a == top_k(a + Seq::<Entry>::empty(), k),
{
    broadcast use group_multiset_axioms;

    let none = Seq::<Entry>::empty();
    to_multiset_len(none);
    lemma_multiset_empty_len(none.to_multiset());
    assert(none.to_multiset().add(b.to_multiset()) =~= b.to_multiset());
    assert(a + none =~= a);
    lemma_top_k_of_retained(a, k);
}

/// One more entry of `b` is offered, the last of those left: if the tracker
/// held the `k` largest of `a` and what was done, it does so again.
pub proof fn lemma_offers_go_on(
    a: Seq<Entry>,
    done: Seq<Entry>,
    left: Seq<Entry>,
    b: Seq<Entry>,
    k: nat,
)
    requires
        left.len() > 0,
        done.to_multiset().add(left.to_multiset()) == b.to_multiset(),
    ensures
        offer(top_k(a + done, k), left.last(), k) == top_k(a + done.push(left.last()), k),
        done.push(left.last()).to_multiset().add(left.drop_last().to_multiset())
            == b.to_multiset(),
{
    broadcast use group_multiset_axioms;

    let e = left.last();
    assert(left =~= left.drop_last().push(e));
    to_multiset_build(left.drop_last(), e);
    to_multiset_build(done, e);
    assert(done.push(e).to_multiset().add(left.drop_last().to_multiset()) =~= b.to_multiset());
    lemma_offer_after_cut(a + done, e, k);
    assert((a + done).push(e) =~= a + done.push(e));
}

/// Once no entry of `b` is left, the tracker holds what merging gives.
pub proof fn lemma_offers_end(
    a: Seq<Entry>,
    done: Seq<Entry>,
    left: Seq<Entry>,
    b: Seq<Entry>,
    k: nat,
)
    requires
        left.len() == 0,
        done.to_multiset().add(left.to_multiset()) == b.to_multiset(),
    ensures
        top_k(a + done, k) == merged(a, b, k),
        merged(a, b, k).len() <= k,
{
    broadcast use group_multiset_axioms;

    to_multiset_len(left);
    lemma_multiset_empty_len(left.to_multiset());
    assert(done.to_multiset() =~= b.to_multiset());
    lemma_multiset_commutative(a, done);
    lemma_multiset_commutative(a, b);
    lemma_top_k_permutation(a + done, a + b, k);
    lemma_top_k_len(a + b, k);
}

/// Entries offered one at a time to an empty tracker leave it with the `k`
/// largest of them, the largest first.
pub proof fn lemma_offers_give_top_k(es: Seq<Entry>, k: nat)
    ensures
        offer_all(Seq::empty(), es, k) == top_k(es, k),
{
    lemma_offer_all(Seq::empty(), es, k);
}

/// What a tracker holds after a run of offers does not depend on their
/// order.
pub proof fn lemma_offers_in_any_order(t: Seq<Entry>, one: Seq<Entry>, other: Seq<Entry>, k: nat)
    requires
        retained(t, k),
        one.to_multiset() == other.to_multiset(),
    ensures
        offer_all(t, one, k) == offer_all(t, other, k),
{
    lemma_offer_all(t, one, k);
    lemma_offer_all(t, other, k);
    lemma_multiset_commutative(t, one);
    lemma_multiset_commutative(t, other);
    lemma_top_k_permutation(t + one, t + other, k);
}

/// A tracker never holds more than `k` entries, however many are offered.
pub proof fn lemma_offers_stay_within(t: Seq<Entry>, es: Seq<Entry>, k: nat)
    requires
        retained(t, k),
    ensures
        retained(offer_all(t, es, k), k),
        offer_all(t, es, k).len() <= k,
{
    lemma_offer_all(t, es, k);
    lemma_top_k_len(t + es, k);
}

/// Merging trackers is associative.
pub proof fn lemma_merged_associative(a: Seq<Entry>, b: Seq<Entry>, c: Seq<Entry>, k: nat)
    ensures
        merged(merged(a, b, k), c, k) == merged(a, merged(b, c, k), k),
{
    let bc = merged(b, c, k);
    lemma_top_k_absorbs(a + b, c, k);
    lemma_seq_union_to_multiset_commutative(a, bc);
    lemma_top_k_permutation(a + bc, bc + a, k);
    lemma_top_k_absorbs(b + c, a, k);
    assert(((b + c) + a).to_multiset() =~= ((a + b) + c).to_multiset()) by {
        broadcast use group_multiset_axioms;

        lemma_multiset_commutative(b + c, a);
        lemma_multiset_commutative(b, c);
        lemma_multiset_commutative(a + b, c);
        lemma_multiset_commutative(a, b);
    }
    lemma_top_k_permutation((b + c) + a, (a + b) + c, k);
}

/// Merging trackers is commutative.
pub proof fn lemma_merged_commutative(a: Seq<Entry>, b: Seq<Entry>, k: nat)
    ensures
        merged(a, b, k) == merged(b, a, k),
{
    lemma_seq_union_to_multiset_commutative(a, b);
    lemma_top_k_permutation(a + b, b + a, k);
}

/// The `k` largest entries come largest first, each of them is one of `s`,
/// and no entry of `s` that is left out is larger than one that is kept.
pub proof fn lemma_top_k_is_largest(s: Seq<Entry>, k: nat)
    ensures
        sorted_by(top_k(s, k), largest_first()),
        top_k(s, k).to_multiset().subset_of(s.to_multiset()),
        forall|e: Entry, i: int|
            #![trigger s.to_multiset().count(e), top_k(s, k)[i]]
            s.to_multiset().count(e) > top_k(s, k).to_multiset().count(e) && 0 <= i < top_k(
                s,
                k,
            ).len() ==> entry_le(e, top_k(s, k)[i]),
{
    broadcast use group_multiset_axioms;

    lemma_sort_facts(s);
    let sorted = s.sort_by(largest_first());
    let t = top_k(s, k);
    if k < sorted.len() {
        let rest = sorted.skip(k as int);
        assert(sorted =~= t + rest);
        lemma_multiset_commutative(t, rest);
        assert forall|e: Entry, i: int|
            #![trigger s.to_multiset().count(e), t[i]]
            s.to_multiset().count(e) > t.to_multiset().count(e) && 0 <= i
                < t.len() implies entry_le(e, t[i]) by {
            to_multiset_contains(rest, e);
            let j = choose|j: int| 0 <= j < rest.len() && rest[j] == e;
            assert(largest_first()(sorted[i], sorted[k + j]));
        }
    }
}

} // verus!
