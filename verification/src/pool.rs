//! The decisions of the worker pool: what a worker does after each pull, and
//! how the parts gathered by all workers become the result.

use crate::errors::ScanError;
use crate::largest::{merge_largest_files, LargeFiles, LARGEST_FILES};
use crate::order::Entry;
use crate::scan::Scan;
use crate::stats::{empty_stats, lemma_sum_grows, merge_stats, sum_stats, Stats, StatsView};
use crate::topk::{
    lemma_top_k_absorbs, lemma_top_k_of_retained, lemma_top_k_permutation, merged, top_k,
};
use vstd::multiset::*;
use vstd::prelude::*;
use vstd::seq_lib::*;

verus! {

/// What a pull from the work queue gave.
#[derive(Debug)]
pub enum Pull {
    /// A directory to scan.
    Item(String),
    /// Nothing within the time allowed; the queue is still open.
    Empty,
    /// Nothing, and nobody is left who could send.
    Closed,
}

/// What a worker does next.
#[derive(Debug)]
pub enum Step {
    /// Scan this directory.
    Scan(String),
    /// Pull again.
    Wait,
    /// Leave the loop and hand the totals in.
    Exit,
}

/// Where a worker stands.
#[derive(Clone, Copy, Debug, PartialEq, Eq, Structural)]
pub enum Phase {
    Pulling,
    Scanning,
    Done,
}

/// The step that follows a pull. Running out of time is no reason to leave:
/// a worker leaves when the walk is over or the queue is closed.
pub open spec fn next_step(pull: Pull, finished: bool) -> Step {
    match pull {
        Pull::Item(path) => Step::Scan(path),
        Pull::Empty => if finished {
            Step::Exit
        } else {
            Step::Wait
        },
        Pull::Closed => Step::Exit,
    }
}

/// The phase that a step leads to.
pub open spec fn phase_after(step: Step) -> Phase {
    match step {
        Step::Scan(_) => Phase::Scanning,
        Step::Wait => Phase::Pulling,
        Step::Exit => Phase::Done,
    }
}

/// One worker of the pool: its phase and what it has gathered.
pub struct Worker {
    stats: Stats,
    largest: LargeFiles,
    phase: Phase,
}

impl Worker {
    /// The totals gathered so far.
    pub closed spec fn stats(&self) -> StatsView {
        self.stats@
    }

    /// The largest files gathered so far.
    pub closed spec fn largest(&self) -> Seq<Entry> {
        self.largest@
    }

    /// Where the worker stands.
    pub closed spec fn spec_phase(&self) -> Phase {
        self.phase
    }

    /// A worker that has gathered nothing and is about to pull.
    pub fn new(track_ext: bool) -> (worker: Self)
        ensures
            worker.stats() == empty_stats(track_ext),
            worker.largest() == Seq::<Entry>::empty(),
            worker.spec_phase() == Phase::Pulling,
    {
        Worker { stats: Stats::new(track_ext), largest: LargeFiles::new(), phase: Phase::Pulling }
    }

    /// The phase.
    #[verifier::when_used_as_spec(spec_phase)]
    pub fn phase(&self) -> (phase: Phase)
        ensures
            phase == self.spec_phase(),
    {
        self.phase
    }

    /// Decides what follows a pull, given whether the walk is over.
    pub fn on_pull(&mut self, pull: Pull, finished: bool) -> (step: Step)
        requires
            old(self).spec_phase() == Phase::Pulling,
        ensures
            step == next_step(pull, finished),
            final(self).spec_phase() == phase_after(step),
            final(self).stats() == old(self).stats(),
            final(self).largest() == old(self).largest(),
    {
        match pull {
            Pull::Item(path) => {
                self.phase = Phase::Scanning;
                Step::Scan(path)
            },
            Pull::Empty => {
                if finished {
                    self.phase = Phase::Done;
                    Step::Exit
                } else {
                    Step::Wait
                }
            },
            Pull::Closed => {
                self.phase = Phase::Done;
                Step::Exit
            },
        }
    }

    /// Whether the totals of a scan can be folded in without overflow.
    pub fn can_absorb(&self, found: &Scan) -> (fits: bool)
        ensures
            fits == (self.stats().size + found.stats@.size <= u64::MAX && self.stats().count
                + found.stats@.count <= u64::MAX),
    {
        found.stats.size() <= u64::MAX - self.stats.size() && found.stats.count() <= u64::MAX
            - self.stats.count()
    }

    /// Folds the result of a scan in and goes back to pulling. The
    /// directories found and the warnings are handed back for the caller to
    /// queue and to report.
    pub fn on_scanned(&mut self, found: Scan) -> (rest: (Vec<String>, Vec<ScanError>))
        requires
            old(self).spec_phase() == Phase::Scanning,
            old(self).stats().size + found.stats@.size <= u64::MAX,
            old(self).stats().count + found.stats@.count <= u64::MAX,
        ensures
            final(self).spec_phase() == Phase::Pulling,
            final(self).stats() == merge_stats(old(self).stats(), found.stats@),
            final(self).largest() == merged(
                old(self).largest(),
                found.largest@,
                LARGEST_FILES as nat,
            ),
            rest.0 == found.children,
            rest.1 == found.warnings,
    {
        let Scan { stats, largest, children, warnings } = found;
        self.stats.add_assign(stats);
        merge_largest_files(&mut self.largest, largest);
        self.phase = Phase::Pulling;
        (children, warnings)
    }

    /// What the worker has gathered, once it has left its loop.
    pub fn finish(self) -> (parts: (Stats, LargeFiles))
        requires
            self.spec_phase() == Phase::Done,
        ensures
            parts.0@ == self.stats(),
            parts.1@ == self.largest(),
    {
        (self.stats, self.largest)
    }
}

/// The totals of what the dispatcher and the workers gathered.
pub open spec fn gathered_stats(parts: Seq<(Stats, LargeFiles)>) -> Seq<StatsView> {
    Seq::new(parts.len(), |i: int| parts[i].0@)
}

/// The files that the dispatcher and the workers hold, one part's after
/// another's.
pub open spec fn gathered_files(parts: Seq<(Stats, LargeFiles)>) -> Seq<Entry>
    decreases parts.len(),
{
    if parts.len() == 0 {
        Seq::empty()
    } else {
        gathered_files(parts.drop_last()) + parts.last().1@
    }
}

/// Whether the totals of all parts can be summed in a `u64`.
pub fn parts_fit(parts: &Vec<(Stats, LargeFiles)>) -> (fits: bool)
    ensures
        fits == (sum_stats(gathered_stats(parts@)).size <= u64::MAX && sum_stats(
            gathered_stats(parts@),
        ).count <= u64::MAX),
{
    let ghost views = gathered_stats(parts@);
    let mut size: u64 = 0;
    let mut count: u64 = 0;
    let mut i: usize = 0;
    while i < parts.len()
        invariant
            i <= parts.len(),
            views == gathered_stats(parts@),
            size == sum_stats(views.take(i as int)).size,
            count == sum_stats(views.take(i as int)).count,
        decreases parts.len() - i,
    {
        proof {
            assert(views.take(i + 1).drop_last() =~= views.take(i as int));
            lemma_sum_grows(views, i + 1);
        }
        match (size.checked_add(parts[i].0.size()), count.checked_add(parts[i].0.count())) {
            (Some(s), Some(c)) => {
                size = s;
                count = c;
            },
            _ => {
                return false;
            },
        }
        i += 1;
    }
    proof {
        assert(views.take(i as int) =~= views);
    }
    true
}

/// Merges what the dispatcher and the workers gathered into the result of
/// the walk: the totals over all parts, tracking extensions as given, and
/// the largest files among those of all parts.
pub fn combine(parts: Vec<(Stats, LargeFiles)>, track_ext: bool) -> (result: (Stats, LargeFiles))
    requires
        sum_stats(gathered_stats(parts@)).size <= u64::MAX,
        sum_stats(gathered_stats(parts@)).count <= u64::MAX,
    ensures
        result.0@ == (StatsView { track_ext, ..sum_stats(gathered_stats(parts@)) }),
        result.1@ == top_k(gathered_files(parts@), LARGEST_FILES as nat),
{
    let ghost all = parts@;
    let ghost views = gathered_stats(parts@);
    let ghost k = LARGEST_FILES as nat;
    let mut total = Stats::new(false);
    let mut i: usize = 0;
    while i < parts.len()
        invariant
            i <= parts.len(),
            views == gathered_stats(parts@),
            sum_stats(views).size <= u64::MAX,
            sum_stats(views).count <= u64::MAX,
            total@ == sum_stats(views.take(i as int)),
        decreases parts.len() - i,
    {
        proof {
            assert(views.take(i + 1).drop_last() =~= views.take(i as int));
            lemma_sum_grows(views, i + 1);
        }
        total.absorb(&parts[i].0);
        i += 1;
    }
    proof {
        assert(views.take(i as int) =~= views);
    }
    let mut files = LargeFiles::new();
    let mut rest = parts;
    let ghost mut done = Seq::<Entry>::empty();
    proof {
        broadcast use group_multiset_axioms;

        lemma_top_k_of_retained(Seq::<Entry>::empty(), k);
        to_multiset_len(done);
        assert(gathered_files(rest@).to_multiset().add(done.to_multiset()) =~= gathered_files(
            all,
        ).to_multiset());
    }
    while rest.len() > 0
        invariant
            k == LARGEST_FILES as nat,
            files@ == top_k(done, k),
            gathered_files(rest@).to_multiset().add(done.to_multiset()) == gathered_files(
                all,
            ).to_multiset(),
        decreases rest.len(),
    {
        let part = rest.pop().unwrap();
        proof {
            broadcast use group_multiset_axioms;

            lemma_multiset_commutative(gathered_files(rest@), part.1@);
            lemma_multiset_commutative(done, part.1@);
            assert(gathered_files(rest@).to_multiset().add((done + part.1@).to_multiset())
                =~= gathered_files(all).to_multiset());
            lemma_top_k_absorbs(done, part.1@, k);
            done = done + part.1@;
        }
        merge_largest_files(&mut files, part.1);
    }
    proof {
        broadcast use group_multiset_axioms;

        assert(done.to_multiset() =~= gathered_files(all).to_multiset());
        lemma_top_k_permutation(done, gathered_files(all), k);
    }
    (total.with_track_ext(track_ext), files)
}

} // verus!
