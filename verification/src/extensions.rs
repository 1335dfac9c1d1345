//! Bytes and files per extension: a map kept as rows, each extension once.

use crate::order::{lemma_path_le_total_order, path_le, path_no_later};
use vstd::prelude::*;

verus! {

/// Bytes and number of files per extension.
pub type ExtView = Map<Seq<char>, (nat, nat)>;

/// What `m` has recorded under `k`: nothing, if `k` is not in it.
pub open spec fn usage_of(m: ExtView, k: Seq<char>) -> (nat, nat) {
    if m.dom().contains(k) {
        m[k]
    } else {
        (0, 0)
    }
}

/// `m` with `v` added to what it has under `k`.
pub open spec fn ext_add(m: ExtView, k: Seq<char>, v: (nat, nat)) -> ExtView {
    m.insert(k, (usage_of(m, k).0 + v.0, usage_of(m, k).1 + v.1))
}

/// The extensions of `a` and of `b`, each with the sum of what the two have
/// under it.
pub open spec fn ext_union(a: ExtView, b: ExtView) -> ExtView {
    Map::new(
        |k: Seq<char>| a.dom().contains(k) || b.dom().contains(k),
        |k: Seq<char>| (usage_of(a, k).0 + usage_of(b, k).0, usage_of(a, k).1 + usage_of(b, k).1),
    )
}

/// Whether some row of `rows` is for extension `k`.
pub open spec fn has_key(rows: Seq<(String, u64, u64)>, k: Seq<char>) -> bool {
    exists|i: int| 0 <= i < rows.len() && (#[trigger] rows[i]).0@ == k
}

/// A row of `rows` for extension `k`.
pub open spec fn key_index(rows: Seq<(String, u64, u64)>, k: Seq<char>) -> int {
    choose|i: int| 0 <= i < rows.len() && (#[trigger] rows[i]).0@ == k
}

/// No two rows are for the same extension.
pub open spec fn distinct_keys(rows: Seq<(String, u64, u64)>) -> bool {
    forall|i: int, j: int|
        0 <= i < rows.len() && 0 <= j < rows.len() && i != j ==> (#[trigger] rows[i]).0@ != (
        #[trigger] rows[j]).0@
}

/// The map that rows of (extension, bytes, files) stand for.
pub open spec fn rows_map(rows: Seq<(String, u64, u64)>) -> ExtView {
    Map::new(
        |k: Seq<char>| has_key(rows, k),
        |k: Seq<char>| (rows[key_index(rows, k)].1 as nat, rows[key_index(rows, k)].2 as nat),
    )
}

/// With no extension twice, each row is the one found for its extension.
pub proof fn lemma_row_lookup(rows: Seq<(String, u64, u64)>, i: int)
    requires
        distinct_keys(rows),
        0 <= i < rows.len(),
    ensures
        has_key(rows, rows[i].0@),
        key_index(rows, rows[i].0@) == i,
        rows_map(rows).dom().contains(rows[i].0@),
        rows_map(rows)[rows[i].0@] == (rows[i].1 as nat, rows[i].2 as nat),
{
    let j = key_index(rows, rows[i].0@);
    assert(rows[j].0@ == rows[i].0@);
}

/// Bytes and number of files per extension, each extension once.
pub struct Extensions {
    rows: Vec<(String, u64, u64)>,
}

impl View for Extensions {
    type V = ExtView;

    closed spec fn view(&self) -> ExtView {
        rows_map(self.rows@)
    }
}

impl Extensions {
    #[verifier::type_invariant]
    spec fn well_formed(self) -> bool {
        distinct_keys(self.rows@)
    }

    /// No extension yet.
    pub fn new() -> (table: Self)
        ensures
            table@ == Map::<Seq<char>, (nat, nat)>::empty(),
    {
        Extensions { rows: Vec::new() }
    }

    /// Whether no extension is recorded.
    pub fn is_empty(&self) -> (none: bool)
        ensures
            none == (self@ == Map::<Seq<char>, (nat, nat)>::empty()),
    {
        proof {
            use_type_invariant(self);
            if self.rows@.len() > 0 {
                lemma_row_lookup(self.rows@, 0);
            } else {
                assert(self@ =~= Map::<Seq<char>, (nat, nat)>::empty());
            }
        }
        self.rows.len() == 0
    }

    /// The bytes and the number of files recorded under `ext`, if any.
    pub fn get(&self, ext: &str) -> (found: Option<(u64, u64)>)
        ensures
            found is Some == self@.dom().contains(ext@),
            found matches Some(v) ==> self@[ext@] == (v.0 as nat, v.1 as nat),
    {
        proof {
            use_type_invariant(self);
        }
        match position(&self.rows, ext) {
            Some(i) => {
                proof {
                    lemma_row_lookup(self.rows@, i as int);
                }
                Some((self.rows[i].1, self.rows[i].2))
            },
            None => None,
        }
    }

    /// Adds `size` bytes and `count` files to what is recorded under `ext`.
    pub fn add(&mut self, ext: &str, size: u64, count: u64)
        requires
            usage_of(old(self)@, ext@).0 + size <= u64::MAX,
            usage_of(old(self)@, ext@).1 + count <= u64::MAX,
        ensures
            final(self)@ == ext_add(old(self)@, ext@, (size as nat, count as nat)),
    {
        proof {
            use_type_invariant(&*self);
        }
        let mut rows: Vec<(String, u64, u64)> = Vec::new();
        std::mem::swap(&mut self.rows, &mut rows);
        let ghost before = rows@;
        match position(&rows, ext) {
            Some(i) => {
                let row = (ext.to_owned(), rows[i].1 + size, rows[i].2 + count);
                proof {
                    lemma_row_lookup(before, i as int);
                    lemma_update_row(before, i as int, row);
                }
                rows.set(i, row);
            },
            None => {
                let row = (ext.to_owned(), size, count);
                proof {
                    lemma_insert_row(before, before.len() as int, row);
                    assert(before.push(row) =~= before.insert(before.len() as int, row));
                }
                rows.push(row);
            },
        }
        self.rows = rows;
    }

    /// One row of (extension, bytes, files) for each extension recorded, in
    /// the order of a report: the most bytes first, then the most files, then
    /// the extension.
    pub fn sorted_rows(&self) -> (rows: Vec<(String, u64, u64)>)
        ensures
            distinct_keys(rows@),
            rows_map(rows@) == self@,
            heaviest_first(rows@),
    {
        proof {
            use_type_invariant(self);
        }
        let mut rows: Vec<(String, u64, u64)> = Vec::new();
        let mut i: usize = 0;
        while i < self.rows.len()
            invariant
                i <= self.rows.len(),
                distinct_keys(self.rows@),
                distinct_keys(rows@),
                rows_map(rows@) == rows_map(self.rows@.take(i as int)),
                heaviest_first(rows@),
            decreases self.rows.len() - i,
        {
            let row = (self.rows[i].0.clone(), self.rows[i].1, self.rows[i].2);
            let mut p: usize = 0;
            while p < rows.len() && comes_no_later(&rows[p], &row)
                invariant
                    p <= rows.len(),
                    forall|j: int| 0 <= j < p ==> row_le(#[trigger] rows@[j], row),
                decreases rows.len() - p,
            {
                p += 1;
            }
            proof {
                let before = rows@;
                let done = self.rows@.take(i as int);
                lemma_take_one_more(self.rows@, i as int);
                assert(has_key(done, row.0@) == rows_map(done).dom().contains(row.0@));
                lemma_insert_row(before, p as int, row);
                assert forall|j: int| p <= j < before.len() implies row_le(
                    row,
                    #[trigger] before[j],
                ) by {
                    lemma_row_le(row, before[p as int], before[j]);
                }
                lemma_insert_in_order(before, p as int, row);
            }
            rows.insert(p, row);
            i += 1;
        }
        proof {
            assert(self.rows@.take(i as int) =~= self.rows@);
        }
        rows
    }

    /// One row of (extension, bytes, files) for each extension recorded.
    pub fn rows(&self) -> (rows: Vec<(String, u64, u64)>)
        ensures
            distinct_keys(rows@),
            rows_map(rows@) == self@,
    {
        proof {
            use_type_invariant(self);
        }
        let mut rows: Vec<(String, u64, u64)> = Vec::new();
        let mut i: usize = 0;
        while i < self.rows.len()
            invariant
                i <= self.rows.len(),
                rows@.len() == i,
                forall|j: int|
                    0 <= j < i ==> (#[trigger] rows@[j]).0@ == self.rows@[j].0@ && rows@[j].1
                        == self.rows@[j].1 && rows@[j].2 == self.rows@[j].2,
            decreases self.rows.len() - i,
        {
            rows.push((self.rows[i].0.clone(), self.rows[i].1, self.rows[i].2));
            i += 1;
        }
        proof {
            lemma_same_rows(self.rows@, rows@);
        }
        rows
    }
}

/// A row for an extension that no row is for yet, put in at any place, adds
/// that extension to the map and leaves the others as they are.
pub proof fn lemma_insert_row(rows: Seq<(String, u64, u64)>, p: int, row: (String, u64, u64))
    requires
        distinct_keys(rows),
        0 <= p <= rows.len(),
        !has_key(rows, row.0@),
    ensures
        distinct_keys(rows.insert(p, row)),
        rows_map(rows.insert(p, row)) == rows_map(rows).insert(
            row.0@,
            (row.1 as nat, row.2 as nat),
        ),
{
    let more = rows.insert(p, row);
    let target = rows_map(rows).insert(row.0@, (row.1 as nat, row.2 as nat));
    assert forall|j: int| 0 <= j < rows.len() implies #[trigger] rows[j] == more[if j < p {
        j
    } else {
        j + 1
    }] by {}
    assert(distinct_keys(more));
    assert forall|k: Seq<char>| has_key(more, k) == target.dom().contains(k) by {
        if has_key(rows, k) {
            let j = key_index(rows, k);
            assert(more[if j < p {
                j
            } else {
                j + 1
            }].0@ == k);
        }
        if k == row.0@ {
            assert(more[p].0@ == k);
        }
    }
    assert forall|k: Seq<char>| has_key(more, k) implies rows_map(more)[k] == target[k] by {
        let j = key_index(more, k);
        lemma_row_lookup(more, j);
        if j != p {
            lemma_row_lookup(rows, if j < p {
                j
            } else {
                j - 1
            });
        }
    }
    assert(rows_map(more) =~= target);
}

/// A row put in the place of the row for the same extension changes what
/// the map has under that extension, and nothing else.
pub proof fn lemma_update_row(rows: Seq<(String, u64, u64)>, i: int, row: (String, u64, u64))
    requires
        distinct_keys(rows),
        0 <= i < rows.len(),
        row.0@ == rows[i].0@,
    ensures
        distinct_keys(rows.update(i, row)),
        rows_map(rows.update(i, row)) == rows_map(rows).insert(
            row.0@,
            (row.1 as nat, row.2 as nat),
        ),
{
    let more = rows.update(i, row);
    let target = rows_map(rows).insert(row.0@, (row.1 as nat, row.2 as nat));
    assert forall|j: int| 0 <= j < rows.len() implies (#[trigger] more[j]).0@ == rows[j].0@ by {}
    assert(distinct_keys(more));
    assert forall|k: Seq<char>| has_key(more, k) == target.dom().contains(k) by {
        if has_key(rows, k) {
            assert(more[key_index(rows, k)].0@ == k);
        }
        if k == row.0@ {
            assert(more[i].0@ == k);
        }
    }
    assert forall|k: Seq<char>| has_key(more, k) implies rows_map(more)[k] == target[k] by {
        let j = key_index(more, k);
        lemma_row_lookup(more, j);
        lemma_row_lookup(rows, j);
    }
    assert(rows_map(more) =~= target);
}

/// The map of one more row is the map of the rows before with that row put
/// in; its extension was not in it.
pub proof fn lemma_take_one_more(rows: Seq<(String, u64, u64)>, i: int)
    requires
        distinct_keys(rows),
        0 <= i < rows.len(),
    ensures
        distinct_keys(rows.take(i)),
        !has_key(rows.take(i), rows[i].0@),
        rows_map(rows.take(i + 1)) == rows_map(rows.take(i)).insert(
            rows[i].0@,
            (rows[i].1 as nat, rows[i].2 as nat),
        ),
{
    let done = rows.take(i);
    assert forall|j: int| 0 <= j < done.len() implies #[trigger] done[j] == rows[j] by {}
    assert(distinct_keys(done));
    assert(!has_key(done, rows[i].0@));
    lemma_insert_row(done, i, rows[i]);
    assert(rows.take(i + 1) =~= done.insert(i, rows[i]));
}

/// Whether row `a` comes no later than row `b` in a listing with the most
/// bytes first, among equal bytes the most files first, and among equal
/// bytes and files the extensions in the order of their bytes.
pub open spec fn row_le(a: (String, u64, u64), b: (String, u64, u64)) -> bool {
    a.1 > b.1 || (a.1 == b.1 && (a.2 > b.2 || (a.2 == b.2 && path_le(a.0@, b.0@))))
}

/// Rows in that order.
pub open spec fn heaviest_first(rows: Seq<(String, u64, u64)>) -> bool {
    forall|i: int, j: int|
        0 <= i < j < rows.len() ==> row_le(#[trigger] rows[i], #[trigger] rows[j])
}

/// Of two rows one comes no later than the other, and the relation carries
/// over a row in between.
pub proof fn lemma_row_le(a: (String, u64, u64), b: (String, u64, u64), c: (String, u64, u64))
    ensures
        row_le(a, b) || row_le(b, a),
        row_le(a, b) && row_le(b, c) ==> row_le(a, c),
{
    lemma_path_le_total_order();
    let r = |x: Seq<char>, y: Seq<char>| path_le(x, y);
    assert(r(a.0@, b.0@) || r(b.0@, a.0@));
    assert(r(a.0@, b.0@) && r(b.0@, c.0@) ==> r(a.0@, c.0@));
}

/// A row put into rows that are in order, behind rows that come no later
/// and before rows that it comes no later than, leaves them in order.
pub proof fn lemma_insert_in_order(rows: Seq<(String, u64, u64)>, p: int, row: (String, u64, u64))
    requires
        heaviest_first(rows),
        0 <= p <= rows.len(),
        forall|j: int| 0 <= j < p ==> row_le(#[trigger] rows[j], row),
        forall|j: int| p <= j < rows.len() ==> row_le(row, #[trigger] rows[j]),
    ensures
        heaviest_first(rows.insert(p, row)),
{
    let more = rows.insert(p, row);
    assert forall|a: int, b: int| 0 <= a < b < more.len() implies row_le(
        #[trigger] more[a],
        #[trigger] more[b],
    ) by {
        let x = if a < p {
            rows[a]
        } else if a == p {
            row
        } else {
            rows[a - 1]
        };
        let y = if b < p {
            rows[b]
        } else if b == p {
            row
        } else {
            rows[b - 1]
        };
        assert(more[a] == x && more[b] == y);
        if a < p && b > p {
            lemma_row_le(x, row, y);
        }
    }
}

/// Whether row `a` comes no later than row `b`.
fn comes_no_later(a: &(String, u64, u64), b: &(String, u64, u64)) -> (r: bool)
    ensures
        r == row_le(*a, *b),
{
    a.1 > b.1 || (a.1 == b.1 && (a.2 > b.2 || (a.2 == b.2 && path_no_later(
        a.0.as_str(),
        b.0.as_str(),
    ))))
}

/// Rows that agree in extension, bytes and files stand for the same map.
pub proof fn lemma_same_rows(a: Seq<(String, u64, u64)>, b: Seq<(String, u64, u64)>)
    requires
        distinct_keys(a),
        a.len() == b.len(),
        forall|j: int|
            0 <= j < a.len() ==> (#[trigger] b[j]).0@ == a[j].0@ && b[j].1 == a[j].1 && b[j].2
                == a[j].2,
    ensures
        distinct_keys(b),
        rows_map(b) == rows_map(a),
{
    assert(distinct_keys(b));
    assert forall|k: Seq<char>| has_key(a, k) == has_key(b, k) by {
        if has_key(a, k) {
            assert(b[key_index(a, k)].0@ == k);
        }
    }
    assert forall|k: Seq<char>| has_key(a, k) implies rows_map(a)[k] == rows_map(b)[k] by {
        let j = key_index(a, k);
        lemma_row_lookup(a, j);
        lemma_row_lookup(b, j);
    }
    assert(rows_map(a) =~= rows_map(b));
}

/// The row of `rows` for extension `ext`, if there is one.
fn position(rows: &Vec<(String, u64, u64)>, ext: &str) -> (found: Option<usize>)
    ensures
        found matches Some(i) ==> i < rows@.len() && rows@[i as int].0@ == ext@,
        found is None ==> !has_key(rows@, ext@),
{
    let key = ext.to_owned();
    let mut i: usize = 0;
    while i < rows.len()
        invariant
            i <= rows.len(),
            key@ == ext@,
            forall|j: int| 0 <= j < i ==> (#[trigger] rows@[j]).0@ != ext@,
        decreases rows.len() - i,
    {
        if rows[i].0 == key {
            return Some(i);
        }
        i += 1;
    }
    None
}

} // verus!
