//! The order of files by size and path.

use vstd::prelude::*;
use vstd::relations::*;
use vstd::string::*;
use vstd::utf8::*;

verus! {

/// A file as the trackers see it: its size in bytes and its path.
pub type Entry = (u64, Seq<char>);

/// Lexicographic order on the bytes of `a` and `b` from index `i` on.
pub open spec fn bytes_le_from(a: Seq<u8>, b: Seq<u8>, i: int) -> bool
    decreases a.len() - i,
{
    if i < 0 || i >= a.len() {
        true
    } else if i >= b.len() {
        false
    } else if a[i] != b[i] {
        a[i] < b[i]
    } else {
        bytes_le_from(a, b, i + 1)
    }
}

/// Lexicographic order on byte strings.
pub open spec fn bytes_le(a: Seq<u8>, b: Seq<u8>) -> bool {
    bytes_le_from(a, b, 0)
}

/// The order of two paths: that of their UTF-8 encodings, byte by byte.
pub open spec fn path_le(a: Seq<char>, b: Seq<char>) -> bool {
    bytes_le(encode_utf8(a), encode_utf8(b))
}

/// The order of two entries: by size, and by path among equal sizes.
pub open spec fn entry_le(a: Entry, b: Entry) -> bool {
    a.0 < b.0 || (a.0 == b.0 && path_le(a.1, b.1))
}

/// The relation "comes no later than" of a listing with the largest entry
/// first.
pub open spec fn largest_first() -> spec_fn(Entry, Entry) -> bool {
    |a: Entry, b: Entry| entry_le(b, a)
}

/// What an owned entry stands for.
pub open spec fn entry_view(e: (u64, String)) -> Entry {
    (e.0, e.1@)
}

/// What a vector of owned entries stands for.
pub open spec fn entries_view(v: Seq<(u64, String)>) -> Seq<Entry> {
    Seq::new(v.len(), |i: int| entry_view(v[i]))
}

pub proof fn lemma_bytes_le_reflexive(a: Seq<u8>, i: int)
    ensures
        bytes_le_from(a, a, i),
    decreases a.len() - i,
{
    if 0 <= i < a.len() {
        lemma_bytes_le_reflexive(a, i + 1);
    }
}

pub proof fn lemma_bytes_le_total(a: Seq<u8>, b: Seq<u8>, i: int)
    ensures
        bytes_le_from(a, b, i) || bytes_le_from(b, a, i),
    decreases a.len() - i,
{
    if 0 <= i < a.len() && i < b.len() && a[i] == b[i] {
        lemma_bytes_le_total(a, b, i + 1);
    }
}

pub proof fn lemma_bytes_le_transitive(a: Seq<u8>, b: Seq<u8>, c: Seq<u8>, i: int)
    requires
        bytes_le_from(a, b, i),
        bytes_le_from(b, c, i),
    ensures
        bytes_le_from(a, c, i),
    decreases a.len() - i,
{
    if 0 <= i < a.len() && a[i] == b[i] && b[i] == c[i] {
        lemma_bytes_le_transitive(a, b, c, i + 1);
    }
}

/// Two byte strings that agree before `i` and are each no later than the
/// other from `i` on are the same string.
pub proof fn lemma_bytes_le_antisymmetric(a: Seq<u8>, b: Seq<u8>, i: int)
    requires
        0 <= i <= a.len(),
        i <= b.len(),
        a.subrange(0, i) == b.subrange(0, i),
        bytes_le_from(a, b, i),
        bytes_le_from(b, a, i),
    ensures
        a == b,
    decreases a.len() - i,
{
    if i < a.len() {
        assert(a.subrange(0, i + 1) =~= a.subrange(0, i).push(a[i]));
        assert(b.subrange(0, i + 1) =~= b.subrange(0, i).push(b[i]));
        lemma_bytes_le_antisymmetric(a, b, i + 1);
    } else {
        assert(a =~= a.subrange(0, i));
    }
}

/// Paths are totally ordered.
pub proof fn lemma_path_le_total_order()
    ensures
        total_ordering(|a: Seq<char>, b: Seq<char>| path_le(a, b)),
{
    let r = |a: Seq<char>, b: Seq<char>| path_le(a, b);
    assert forall|a: Seq<char>| #[trigger] r(a, a) by {
        lemma_bytes_le_reflexive(encode_utf8(a), 0);
    }
    assert forall|a: Seq<char>, b: Seq<char>| #[trigger] r(a, b) && #[trigger] r(b, a) implies a
        == b by {
        let x = encode_utf8(a);
        let y = encode_utf8(b);
        assert(x.subrange(0, 0) =~= y.subrange(0, 0));
        lemma_bytes_le_antisymmetric(x, y, 0);
        encode_utf8_decode_utf8(a);
        encode_utf8_decode_utf8(b);
    }
    assert forall|a: Seq<char>, b: Seq<char>, c: Seq<char>| #[trigger]
        r(a, b) && #[trigger] r(b, c) implies r(a, c) by {
        lemma_bytes_le_transitive(encode_utf8(a), encode_utf8(b), encode_utf8(c), 0);
    }
    assert forall|a: Seq<char>, b: Seq<char>| #[trigger] r(a, b) || #[trigger] r(b, a) by {
        lemma_bytes_le_total(encode_utf8(a), encode_utf8(b), 0);
    }
}

/// Entries are totally ordered, in both directions.
pub proof fn lemma_entry_total_order()
    ensures
        total_ordering(|a: Entry, b: Entry| entry_le(a, b)),
        total_ordering(largest_first()),
{
    lemma_path_le_total_order();
    let p = |a: Seq<char>, b: Seq<char>| path_le(a, b);
    let up = |a: Entry, b: Entry| entry_le(a, b);
    let down = largest_first();
    assert forall|a: Entry| #[trigger] up(a, a) by {
        assert(p(a.1, a.1));
    }
    assert forall|a: Entry, b: Entry| #[trigger] up(a, b) && #[trigger] up(b, a) implies a == b by {
        assert(p(a.1, b.1) && p(b.1, a.1));
    }
    assert forall|a: Entry, b: Entry, c: Entry| #[trigger] up(a, b) && #[trigger] up(
        b,
        c,
    ) implies up(a, c) by {
        if a.0 == b.0 && b.0 == c.0 {
            assert(p(a.1, b.1) && p(b.1, c.1));
        }
    }
    assert forall|a: Entry, b: Entry| #[trigger] up(a, b) || #[trigger] up(b, a) by {
        assert(p(a.1, b.1) || p(b.1, a.1));
    }
    assert forall|a: Entry| #[trigger] down(a, a) by {
        assert(up(a, a));
    }
    assert forall|a: Entry, b: Entry| #[trigger] down(a, b) && #[trigger] down(b, a) implies a
        == b by {
        assert(up(a, b) && up(b, a));
    }
    assert forall|a: Entry, b: Entry, c: Entry| #[trigger] down(a, b) && #[trigger] down(
        b,
        c,
    ) implies down(a, c) by {
        assert(up(c, b) && up(b, a));
    }
    assert forall|a: Entry, b: Entry| #[trigger] down(a, b) || #[trigger] down(b, a) by {
        assert(up(a, b) || up(b, a));
    }
}

/// Whether path `a` is no later than path `b`.
pub fn path_no_later(a: &str, b: &str) -> (r: bool)
    ensures
        r == path_le(a@, b@),
{
    let x = a.as_bytes();
    let y = b.as_bytes();
    let mut i: usize = 0;
    while i < x.len() && i < y.len() && x[i] == y[i]
        invariant
            i <= x@.len(),
            i <= y@.len(),
            x@ == encode_utf8(a@),
            y@ == encode_utf8(b@),
            bytes_le(x@, y@) == bytes_le_from(x@, y@, i as int),
        decreases x@.len() - i,
    {
        i += 1;
    }
    if i >= x.len() {
        true
    } else if i >= y.len() {
        false
    } else {
        x[i] < y[i]
    }
}

/// Whether entry `a` is no larger than entry `b`.
pub fn entry_no_larger(a: &(u64, String), b: &(u64, String)) -> (r: bool)
    ensures
        r == entry_le(entry_view(*a), entry_view(*b)),
{
    a.0 < b.0 || (a.0 == b.0 && path_no_later(a.1.as_str(), b.1.as_str()))
}

} // verus!
