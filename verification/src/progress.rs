//! When a walk is over: the count of queued and running scans.

use vstd::prelude::*;

verus! {

/// The state of a walk as the pool sees it: how many directories wait in the
/// queue, how many are being scanned, and whether the dispatcher may still
/// seed the queue.
#[derive(Clone, Copy, Debug, PartialEq, Eq, Structural)]
pub struct Progress {
    queued: usize,
    scanning: usize,
    seeding: bool,
}

/// The mathematical content of a `Progress`.
pub struct ProgressView {
    pub queued: nat,
    pub scanning: nat,
    pub seeding: bool,
}

/// Whether the walk is over: nothing waits, nothing is being scanned, and
/// the dispatcher has stopped seeding.
pub open spec fn is_finished(p: ProgressView) -> bool {
    p.queued == 0 && p.scanning == 0 && !p.seeding
}

/// Whether anyone may still put a directory into the queue: the dispatcher
/// while it seeds, or a worker that is scanning.
pub open spec fn may_push(p: ProgressView) -> bool {
    p.seeding || p.scanning > 0
}

/// Whether a worker may take a directory from the queue.
pub open spec fn may_pull(p: ProgressView) -> bool {
    p.queued > 0
}

/// Whether a scan can come to its end.
pub open spec fn may_complete(p: ProgressView) -> bool {
    p.scanning > 0
}

/// What happens in a walk, as far as its progress goes.
pub enum Event {
    /// So many directories were put into the queue.
    Pushed(nat),
    /// A worker took a directory from the queue.
    Pulled,
    /// A worker ended the scan of a directory.
    Completed,
    /// The dispatcher stopped seeding.
    Sealed,
}

/// Whether `event` may happen in state `p`.
pub open spec fn allowed(p: ProgressView, event: Event) -> bool {
    match event {
        Event::Pushed(_) => may_push(p),
        Event::Pulled => may_pull(p),
        Event::Completed => may_complete(p),
        Event::Sealed => true,
    }
}

/// The state that `event` leads to from `p`.
pub open spec fn after(p: ProgressView, event: Event) -> ProgressView {
    match event {
        Event::Pushed(n) => ProgressView { queued: p.queued + n, ..p },
        Event::Pulled => ProgressView {
            queued: (p.queued - 1) as nat,
            scanning: p.scanning + 1,
            ..p
        },
        Event::Completed => ProgressView { scanning: (p.scanning - 1) as nat, ..p },
        Event::Sealed => ProgressView { seeding: false, ..p },
    }
}

/// The state at the start of a walk.
pub open spec fn at_start() -> ProgressView {
    ProgressView { queued: 0, scanning: 0, seeding: true }
}

/// The state that a walk is in after `events`, from its start.
pub open spec fn after_all(events: Seq<Event>) -> ProgressView
    decreases events.len(),
{
    if events.len() == 0 {
        at_start()
    } else {
        after(after_all(events.drop_last()), events.last())
    }
}

/// Whether `events` can be the events of a walk from its start: each of them
/// was allowed when it happened.
pub open spec fn in_turn(events: Seq<Event>) -> bool
    decreases events.len(),
{
    events.len() == 0 || (in_turn(events.drop_last()) && allowed(
        after_all(events.drop_last()),
        events.last(),
    ))
}

/// How many directories were put into the queue in all.
pub open spec fn pushed_in(events: Seq<Event>) -> nat
    decreases events.len(),
{
    if events.len() == 0 {
        0
    } else {
        pushed_in(events.drop_last()) + match events.last() {
            Event::Pushed(n) => n,
            _ => 0,
        }
    }
}

/// How many directories were taken from the queue.
pub open spec fn pulled_in(events: Seq<Event>) -> nat
    decreases events.len(),
{
    if events.len() == 0 {
        0
    } else {
        pulled_in(events.drop_last()) + if events.last() is Pulled {
            1nat
        } else {
            0nat
        }
    }
}

/// How many scans came to their end.
pub open spec fn completed_in(events: Seq<Event>) -> nat
    decreases events.len(),
{
    if events.len() == 0 {
        0
    } else {
        completed_in(events.drop_last()) + if events.last() is Completed {
            1nat
        } else {
            0nat
        }
    }
}

impl View for Progress {
    type V = ProgressView;

    closed spec fn view(&self) -> ProgressView {
        ProgressView {
            queued: self.queued as nat,
            scanning: self.scanning as nat,
            seeding: self.seeding,
        }
    }
}

impl Progress {
    /// The start of a walk: nothing queued, nothing scanned, the dispatcher
    /// seeding.
    pub fn new() -> (progress: Self)
        ensures
            progress@ == at_start(),
    {
        Progress { queued: 0, scanning: 0, seeding: true }
    }

    /// Whether `n` more directories can be counted as queued.
    pub fn can_push(&self, n: usize) -> (ok: bool)
        ensures
            ok == (may_push(self@) && self@.queued + n <= usize::MAX),
    {
        (self.seeding || self.scanning > 0) && n <= usize::MAX - self.queued
    }

    /// `n` directories were put into the queue.
    pub fn pushed(&mut self, n: usize)
        requires
            may_push(old(self)@),
            old(self)@.queued + n <= usize::MAX,
        ensures
            final(self)@ == after(old(self)@, Event::Pushed(n as nat)),
    {
        self.queued = self.queued + n;
    }

    /// Whether a directory can be counted as taken from the queue.
    pub fn can_pull(&self) -> (ok: bool)
        ensures
            ok == (may_pull(self@) && self@.scanning + 1 <= usize::MAX),
    {
        self.queued > 0 && self.scanning < usize::MAX
    }

    /// A worker took a directory from the queue and scans it.
    pub fn pulled(&mut self)
        requires
            may_pull(old(self)@),
            old(self)@.scanning + 1 <= usize::MAX,
        ensures
            final(self)@ == after(old(self)@, Event::Pulled),
    {
        self.queued = self.queued - 1;
        self.scanning = self.scanning + 1;
    }

    /// Whether a scan can be counted as ended.
    pub fn can_complete(&self) -> (ok: bool)
        ensures
            ok == may_complete(self@),
    {
        self.scanning > 0
    }

    /// A worker ended the scan of a directory, after it put what it found
    /// into the queue.
    pub fn completed(&mut self)
        requires
            may_complete(old(self)@),
        ensures
            final(self)@ == after(old(self)@, Event::Completed),
    {
        self.scanning = self.scanning - 1;
    }

    /// The dispatcher has scanned the root and seeds no more.
    pub fn sealed(&mut self)
        ensures
            final(self)@ == after(old(self)@, Event::Sealed),
    {
        self.seeding = false;
    }

    /// Whether the walk is over.
    pub fn finished(&self) -> (over: bool)
        ensures
            over == is_finished(self@),
    {
        self.queued == 0 && self.scanning == 0 && !self.seeding
    }
}

/// A walk that is over stays over: nobody may push, pull or end a scan, so
/// no work can arrive any more.
pub proof fn lemma_finished_is_final(p: ProgressView)
    requires
        is_finished(p),
    ensures
        !may_push(p),
        !may_pull(p),
        !may_complete(p),
{
}

/// A walk is not over while a directory waits or is being scanned, and
/// whoever may push keeps it from being over.
pub proof fn lemma_no_work_lost(p: ProgressView)
    ensures
        p.queued > 0 || p.scanning > 0 ==> !is_finished(p),
        may_push(p) ==> !is_finished(p),
{
}

/// At any time of a walk, the directories that wait are those put into the
/// queue and not yet taken out, and the directories being scanned are those
/// taken out whose scan has not ended.
pub proof fn lemma_progress_counts(events: Seq<Event>)
    requires
        in_turn(events),
    ensures
        pulled_in(events) <= pushed_in(events),
        completed_in(events) <= pulled_in(events),
        after_all(events).queued == pushed_in(events) - pulled_in(events),
        after_all(events).scanning == pulled_in(events) - completed_in(events),
    decreases events.len(),
{
    if events.len() > 0 {
        lemma_progress_counts(events.drop_last());
    }
}

/// When a walk is over, every directory that was put into the queue has been
/// taken out and scanned to its end, and nothing more can happen but that
/// the dispatcher says once more that it has stopped seeding.
pub proof fn lemma_over_means_all_scanned(events: Seq<Event>)
    requires
        in_turn(events),
        is_finished(after_all(events)),
    ensures
        pulled_in(events) == pushed_in(events),
        completed_in(events) == pushed_in(events),
        forall|next: Event| #[trigger] allowed(after_all(events), next) ==> next is Sealed,
{
    lemma_progress_counts(events);
}

} // verus!
