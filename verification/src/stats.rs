//! Running totals of bytes and files.

use crate::errors::{is_metadata_error, ScanError};
use crate::extensions::{
    distinct_keys, ext_add, ext_union, heaviest_first, lemma_row_lookup, lemma_take_one_more,
    rows_map, ExtView, Extensions,
};
use vstd::prelude::*;

verus! {

/// What a look at one file's metadata gave.
#[derive(Debug)]
pub struct FileMeta {
    /// The length of the file in bytes.
    pub len: u64,
    /// Whether it is a regular file.
    pub is_file: bool,
    /// The extension of its name, without the dot, if it has one.
    pub extension: Option<String>,
}

/// The totals over a set of files: bytes, number of files and, where
/// extensions are tracked, both per extension.
pub struct StatsView {
    pub size: nat,
    pub count: nat,
    pub ext: ExtView,
    pub track_ext: bool,
}

/// The extension under which a file is counted, if it is counted under one.
pub open spec fn counted_ext(meta: FileMeta, track_ext: bool) -> Option<Seq<char>> {
    if track_ext && meta.is_file {
        match meta.extension {
            Some(e) => Some(e@),
            None => None,
        }
    } else {
        None
    }
}

/// The totals over no file.
pub open spec fn empty_stats(track_ext: bool) -> StatsView {
    StatsView { size: 0, count: 0, ext: Map::empty(), track_ext }
}

/// The totals over the one file that `meta` describes.
pub open spec fn file_stats(meta: FileMeta, track_ext: bool) -> StatsView {
    StatsView {
        size: meta.len as nat,
        count: 1,
        ext: match counted_ext(meta, track_ext) {
            Some(e) => Map::<Seq<char>, (nat, nat)>::empty().insert(e, (meta.len as nat, 1nat)),
            None => Map::empty(),
        },
        track_ext,
    }
}

/// The totals `s` with the file that `meta` describes folded in.
pub open spec fn with_file(s: StatsView, meta: FileMeta) -> StatsView {
    StatsView {
        size: s.size + meta.len as nat,
        count: s.count + 1,
        ext: match counted_ext(meta, s.track_ext) {
            Some(e) => ext_add(s.ext, e, (meta.len as nat, 1nat)),
            None => s.ext,
        },
        track_ext: s.track_ext,
    }
}

/// The totals over the files of `a` and those of `b`. Whether extensions are
/// tracked is taken from `a`.
pub open spec fn merge_stats(a: StatsView, b: StatsView) -> StatsView {
    StatsView {
        size: a.size + b.size,
        count: a.count + b.count,
        ext: ext_union(a.ext, b.ext),
        track_ext: a.track_ext,
    }
}

/// The totals over all of `parts`, merged one after the other into totals
/// over no file that track no extension.
pub open spec fn sum_stats(parts: Seq<StatsView>) -> StatsView
    decreases parts.len(),
{
    if parts.len() == 0 {
        empty_stats(false)
    } else {
        merge_stats(sum_stats(parts.drop_last()), parts.last())
    }
}

/// No extension has more bytes or files than there are in all.
pub open spec fn ext_within_totals(s: StatsView) -> bool {
    forall|k: Seq<char>|
        (#[trigger] s.ext.dom().contains(k)) ==> s.ext[k].0 <= s.size && s.ext[k].1 <= s.count
}

/// The views of a sequence of totals.
pub open spec fn stats_views(parts: Seq<Stats>) -> Seq<StatsView> {
    Seq::new(parts.len(), |i: int| parts[i]@)
}

/// Running totals over the files seen so far.
pub struct Stats {
    size: u64,
    count: u64,
    ext: Extensions,
    track_ext: bool,
}

impl View for Stats {
    type V = StatsView;

    closed spec fn view(&self) -> StatsView {
        StatsView {
            size: self.size as nat,
            count: self.count as nat,
            ext: self.ext@,
            track_ext: self.track_ext,
        }
    }
}

impl Default for Stats {
    /// Totals over no file that track no extension.
    fn default() -> (stats: Self)
        ensures
            stats@ == empty_stats(false),
    {
        Stats::new(false)
    }
}

impl Clone for Stats {
    fn clone(&self) -> (copy: Self)
        ensures
            copy@ == self@,
    {
        proof {
            use_type_invariant(self);
        }
        let mut copy = Stats::new(self.track_ext);
        copy.absorb(self);
        proof {
            assert(copy@.ext =~= self@.ext);
        }
        copy
    }
}

impl Stats {
    #[verifier::type_invariant]
    spec fn well_formed(self) -> bool {
        ext_within_totals(self@)
    }

    /// Totals over no file.
    pub fn new(track_ext: bool) -> (stats: Self)
        ensures
            stats@ == empty_stats(track_ext),
    {
        Stats { size: 0, count: 0, ext: Extensions::new(), track_ext }
    }

    /// Totals over one file, from what a look at its metadata gave: the
    /// metadata or the reason why there is none.
    pub fn from_file(path: &str, probe: Result<FileMeta, String>, track_ext: bool) -> (made: Result<
        Self,
        ScanError,
    >)
        ensures
            probe matches Ok(meta) ==> made matches Ok(stats) && stats@ == file_stats(
                meta,
                track_ext,
            ),
            probe matches Err(reason) ==> made matches Err(error) && is_metadata_error(
                error,
                path@,
                reason@,
            ),
    {
        match probe {
            Ok(meta) => {
                let mut stats =
                    Stats { size: meta.len, count: 1, ext: Extensions::new(), track_ext };
                stats.add_extension(&meta);
                Ok(stats)
            },
            Err(reason) => Err(ScanError::FileMetadataError { path: path.to_owned(), reason }),
        }
    }

    /// Folds one file in, from what a look at its metadata gave. On a failed
    /// look the totals stay as they are.
    pub fn add_file(&mut self, path: &str, probe: Result<FileMeta, String>) -> (added: Result<
        FileMeta,
        ScanError,
    >)
        requires
            probe matches Ok(meta) ==> old(self)@.size + meta.len <= u64::MAX && old(self)@.count
                + 1 <= u64::MAX,
        ensures
            probe matches Ok(meta) ==> added == Ok::<FileMeta, ScanError>(meta) && final(self)@
                == with_file(old(self)@, meta),
            probe matches Err(reason) ==> added matches Err(error) && is_metadata_error(
                error,
                path@,
                reason@,
            ),
            probe is Err ==> final(self)@ == old(self)@,
    {
        match probe {
            Ok(meta) => {
                self.fold_file(&meta);
                Ok(meta)
            },
            Err(reason) => Err(ScanError::FileMetadataError { path: path.to_owned(), reason }),
        }
    }

    /// Folds in one file whose metadata was read.
    pub fn fold_file(&mut self, meta: &FileMeta)
        requires
            old(self)@.size + meta.len <= u64::MAX,
            old(self)@.count + 1 <= u64::MAX,
        ensures
            final(self)@ == with_file(old(self)@, *meta),
    {
        proof {
            use_type_invariant(&*self);
            assert(self@.ext == self.ext@);
        }
        self.size = self.size + meta.len;
        self.count = self.count + 1;
        self.add_extension(meta);
    }

    /// Counts the file under its extension, where extensions are tracked and
    /// it is a regular file that has one. The totals hold the file already.
    fn add_extension(&mut self, meta: &FileMeta)
        requires
            old(self).size >= meta.len,
            old(self).count >= 1,
            forall|k: Seq<char>|
                (#[trigger] old(self).ext@.dom().contains(k)) ==> old(self).ext@[k].0 + meta.len
                    <= old(self).size && old(self).ext@[k].1 + 1 <= old(self).count,
        ensures
            final(self).size == old(self).size,
            final(self).count == old(self).count,
            final(self).track_ext == old(self).track_ext,
            final(self).ext@ == match counted_ext(*meta, old(self).track_ext) {
                Some(e) => ext_add(old(self).ext@, e, (meta.len as nat, 1nat)),
                None => old(self).ext@,
            },
    {
        if !self.track_ext || !meta.is_file {
            return ;
        }
        if let Some(ext) = &meta.extension {
            let mut table = Extensions::new();
            std::mem::swap(&mut self.ext, &mut table);
            table.add(ext.as_str(), meta.len, 1);
            self.ext = table;
        }
    }

    /// Folds the totals `rhs` in.
    pub fn add_assign(&mut self, rhs: Stats)
        requires
            old(self)@.size + rhs@.size <= u64::MAX,
            old(self)@.count + rhs@.count <= u64::MAX,
        ensures
            final(self)@ == merge_stats(old(self)@, rhs@),
    {
        self.absorb(&rhs);
    }

    /// Folds the totals `rhs` in, leaving `rhs` as it is.
    pub fn absorb(&mut self, rhs: &Stats)
        requires
            old(self)@.size + rhs@.size <= u64::MAX,
            old(self)@.count + rhs@.count <= u64::MAX,
        ensures
            final(self)@ == merge_stats(old(self)@, rhs@),
    {
        proof {
            use_type_invariant(&*self);
            use_type_invariant(rhs);
        }
        let ghost a = self@;
        let ghost b = rhs@;
        let rows = rhs.ext.rows();
        let mut table = Extensions::new();
        std::mem::swap(&mut self.ext, &mut table);
        let mut i: usize = 0;
        while i < rows.len()
            invariant
                i <= rows.len(),
                distinct_keys(rows@),
                rows_map(rows@) == b.ext,
                ext_within_totals(a),
                ext_within_totals(b),
                a.size + b.size <= u64::MAX,
                a.count + b.count <= u64::MAX,
                table@ == ext_union(a.ext, rows_map(rows@.take(i as int))),
            decreases rows.len() - i,
        {
            proof {
                lemma_row_lookup(rows@, i as int);
                lemma_take_one_more(rows@, i as int);
            }
            table.add(rows[i].0.as_str(), rows[i].1, rows[i].2);
            proof {
                assert(table@ =~= ext_union(a.ext, rows_map(rows@.take(i + 1))));
            }
            i += 1;
        }
        proof {
            assert(rows@.take(i as int) =~= rows@);
        }
        self.count = self.count + rhs.count;
        self.size = self.size + rhs.size;
        proof {
            assert(ext_within_totals(
                StatsView {
                    size: self.size as nat,
                    count: self.count as nat,
                    ext: table@,
                    track_ext: self.track_ext,
                },
            ));
        }
        self.ext = table;
    }

    /// The totals over all of `parts`.
    pub fn sum(parts: &Vec<Stats>) -> (total: Stats)
        requires
            sum_stats(stats_views(parts@)).size <= u64::MAX,
            sum_stats(stats_views(parts@)).count <= u64::MAX,
        ensures
            total@ == sum_stats(stats_views(parts@)),
    {
        let ghost views = stats_views(parts@);
        let mut total = Stats::new(false);
        let mut i: usize = 0;
        while i < parts.len()
            invariant
                i <= parts.len(),
                views == stats_views(parts@),
                sum_stats(views).size <= u64::MAX,
                sum_stats(views).count <= u64::MAX,
                total@ == sum_stats(views.take(i as int)),
            decreases parts.len() - i,
        {
            proof {
                assert(views.take(i + 1).drop_last() =~= views.take(i as int));
                lemma_sum_grows(views, i + 1);
            }
            total.absorb(&parts[i]);
            i += 1;
        }
        proof {
            assert(views.take(i as int) =~= views);
        }
        total
    }

    /// The same totals, with the tracking of extensions as given.
    pub fn with_track_ext(self, track_ext: bool) -> (stats: Stats)
        ensures
            stats@ == (StatsView { track_ext, ..self@ }),
    {
        proof {
            use_type_invariant(&self);
        }
        Stats { size: self.size, count: self.count, ext: self.ext, track_ext }
    }

    /// The number of bytes in all.
    pub fn size(&self) -> (size: u64)
        ensures
            size == self@.size,
    {
        self.size
    }

    /// The number of files in all.
    pub fn count(&self) -> (count: u64)
        ensures
            count == self@.count,
    {
        self.count
    }

    /// Whether extensions are tracked.
    pub fn track_ext(&self) -> (track_ext: bool)
        ensures
            track_ext == self@.track_ext,
    {
        self.track_ext
    }

    /// The bytes and the number of files counted under `ext`, if any.
    pub fn extension(&self, ext: &str) -> (found: Option<(u64, u64)>)
        ensures
            found is Some == self@.ext.dom().contains(ext@),
            found matches Some(v) ==> self@.ext[ext@] == (v.0 as nat, v.1 as nat),
    {
        self.ext.get(ext)
    }

    /// One row of (extension, bytes, files) for each extension counted, in
    /// the order of a report: the most bytes first, then the most files, then
    /// the extension.
    pub fn extensions(&self) -> (rows: Vec<(String, u64, u64)>)
        ensures
            distinct_keys(rows@),
            rows_map(rows@) == self@.ext,
            heaviest_first(rows@),
    {
        self.ext.sorted_rows()
    }
}

/// The totals over the first parts are no more than those over all.
pub proof fn lemma_sum_grows(parts: Seq<StatsView>, n: int)
    requires
        0 <= n <= parts.len(),
    ensures
        sum_stats(parts.take(n)).size <= sum_stats(parts).size,
        sum_stats(parts.take(n)).count <= sum_stats(parts).count,
    decreases parts.len() - n,
{
    if n == parts.len() {
        assert(parts.take(n) =~= parts);
    } else {
        lemma_sum_grows(parts, n + 1);
        assert(parts.take(n + 1).drop_last() =~= parts.take(n));
    }
}

} // verus!
